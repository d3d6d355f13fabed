//! The decoded form of a `.sutures.json` manifest, before compilation.
use vstd::prelude::*;
use crate::json::{models, Json, JsonValue};
use crate::suture::opt_string;

verus! {

/// Root object of a `.sutures.json` manifest.
///
/// The `name` is required by the schema but not used after validation.
pub struct SutureSchema {
    pub name: String,
    pub suture_sets: Vec<RawSutureSet>,
}

/// A named group of sutures targeting a single capture direction.
///
/// `sutures` holds the raw suture objects: their keys are the terminal
/// paths themselves, so they are read during compilation.
pub struct RawSutureSet {
    pub id: Option<String>,
    pub name: String,
    pub description: Option<String>,
    pub version: Option<String>,
    pub capture_direction: Direction,
    pub sutures: Vec<JsonValue>,
}

/// Capture direction: `"request"` or `"response"`.
#[derive(Debug, Clone, Copy, PartialEq, Eq, Structural)]
pub enum Direction {
    Request,
    Response,
}

/// The model of a suture set.
pub struct RawSetModel {
    pub id: Option<Seq<char>>,
    pub name: Seq<char>,
    pub description: Option<Seq<char>>,
    pub version: Option<Seq<char>>,
    pub direction: Direction,
    pub sutures: Seq<Json>,
}

impl View for RawSutureSet {
    type V = RawSetModel;

    open spec fn view(&self) -> RawSetModel {
        RawSetModel {
            id: opt_string(self.id),
            name: self.name@,
            description: opt_string(self.description),
            version: opt_string(self.version),
            direction: self.capture_direction,
            sutures: models(self.sutures@),
        }
    }
}

pub open spec fn set_models(s: Seq<RawSutureSet>) -> Seq<RawSetModel> {
    Seq::new(s.len(), |i: int| s[i]@)
}

} // verus!
