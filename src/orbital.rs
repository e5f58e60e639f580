//! A satellite's propagator, built by sgp4 from one element record.
use crate::tle::TLE;
use sgp4::{Constants, Elements, ElementsError, TleError};
use vstd::prelude::*;

verus! {

#[verifier::external_type_specification]
#[verifier::external_body]
pub struct ExElements(Elements);

#[verifier::external_type_specification]
#[verifier::external_body]
pub struct ExConstants(Constants);

#[verifier::external_type_specification]
#[verifier::external_body]
pub struct ExTleError(TleError);

#[verifier::external_type_specification]
#[verifier::external_body]
pub struct ExElementsError(ElementsError);

/// The length of an element line.
pub const ELEMENT_LINE_LEN: usize = 69;

/// Where an element line's checksum digit stands.
pub const CHECKSUM_COLUMN: usize = 68;

/// Whether sgp4 reads two element lines as a valid element set.
pub uninterp spec fn elements_accepted(line1: Seq<u8>, line2: Seq<u8>) -> bool;

/// Two lines of the element-line length whose checksum bytes are not below
/// the digit `0`: the lines that sgp4's parser reads without panicking (it
/// subtracts `b'0'` from the checksum byte).
pub open spec fn element_lines_shaped(line1: Seq<u8>, line2: Seq<u8>) -> bool {
    &&& line1.len() == ELEMENT_LINE_LEN
    &&& line2.len() == ELEMENT_LINE_LEN
    &&& line1[CHECKSUM_COLUMN as int] >= 48
    &&& line2[CHECKSUM_COLUMN as int] >= 48
}

/// Relies on sgp4's `Elements::from_tle`: parses two element lines; whether it
/// accepts them depends on the lines alone.
#[verifier::external_body]
fn parse_elements(line1: &[u8], line2: &[u8]) -> (r: Result<Elements, TleError>)
    requires
        element_lines_shaped(line1@, line2@),
    ensures
        r is Ok <==> elements_accepted(line1@, line2@),
{
    Elements::from_tle(None, line1, line2)
}

/// Relies on sgp4's `Constants::from_elements`: the propagator constants of a
/// set of elements, or the reason they cannot be had.
#[verifier::external_body]
fn propagation_constants(elements: &Elements) -> (r: Result<Constants, ElementsError>) {
    Constants::from_elements(elements)
}

/// Why an element record gives no propagator.
#[derive(Debug, Clone, Copy, PartialEq, Eq)]
pub enum OrbitalError {
    /// The two lines are not valid element lines.
    MalformedElements,
    /// The elements describe no orbit that the propagator takes.
    UnusableElements,
}

pub struct Orbital {
    elements: Elements,
    constants: Constants,
}

impl Orbital {
    /// The propagator of an element record. The lines are malformed where
    /// they are not two element lines of the right length with checksum bytes
    /// at or above `0`, or where sgp4 does not accept them; an accepted
    /// element set gives a propagator unless sgp4 finds no usable orbit in it.
    pub fn new(tle: &TLE) -> (r: Result<Orbital, OrbitalError>)
        ensures
            r matches Err(OrbitalError::MalformedElements) <==> !(element_lines_shaped(
                tle.line1@,
                tle.line2@,
            ) && elements_accepted(tle.line1@, tle.line2@)),
    {
        let l1 = tle.line1.as_slice();
        let l2 = tle.line2.as_slice();
        if l1.len() != ELEMENT_LINE_LEN || l2.len() != ELEMENT_LINE_LEN || l1[CHECKSUM_COLUMN] < 48
            || l2[CHECKSUM_COLUMN] < 48 {
            return Err(OrbitalError::MalformedElements);
        }
        let elements = match parse_elements(l1, l2) {
            Ok(e) => e,
            Err(_) => return Err(OrbitalError::MalformedElements),
        };
        let constants = match propagation_constants(&elements) {
            Ok(c) => c,
            Err(_) => return Err(OrbitalError::UnusableElements),
        };
        Ok(Orbital { elements, constants })
    }

    pub fn elements(&self) -> &Elements {
        &self.elements
    }

    pub fn constants(&self) -> &Constants {
        &self.constants
    }
}

} // verus!
