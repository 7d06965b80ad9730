//! How an Arrow array becomes an array of line strings.
//!
//! An array is read as a native geometry array, and where that fails as well-known binary that is
//! then converted. What comes out must be line strings.
use vstd::prelude::*;

verus! {

/// A step of the conversion.
#[derive(Clone, Copy, Debug, PartialEq, Eq, Structural)]
pub enum Step {
    /// Read the array as a native geometry array.
    ReadNative,
    /// Read the array as well-known binary.
    CastToWkb,
    /// Convert well-known binary to geometries.
    ConvertWkb,
    /// Make a native geometry array of the geometries.
    MakeNative,
    /// Look at the type of the native geometry array.
    InspectType,
}

/// How a step ended.
#[derive(Debug)]
pub enum Event {
    /// The step succeeded; for a type, the array holds line strings.
    Succeeded,
    /// The step failed; for a type, the array holds what the text names.
    Failed(String),
}

/// Why an array does not become line strings.
#[derive(Debug)]
pub enum LinesError {
    CastToWkb,
    ConvertWkb,
    MakeNative,
    NotLineStrings(String),
}

/// What happens next.
#[derive(Debug)]
pub enum Action {
    Perform(Step),
    Accept,
    Reject(LinesError),
}

impl LinesError {
    /// What the error says.
    pub open spec fn message(&self) -> Seq<char> {
        match self {
            LinesError::CastToWkb => "failed to cast to wkb array"@,
            LinesError::ConvertWkb => "Failed to convert from wkb"@,
            LinesError::MakeNative => "Failed to convert wkb array to native array"@,
            LinesError::NotLineStrings(found) => "Input must be LineString array not "@ + found@,
        }
    }

    /// The error in words.
    pub fn to_string(&self) -> (s: String)
        ensures
            s@ == self.message(),
    {
        match self {
            LinesError::CastToWkb => "failed to cast to wkb array".to_owned(),
            LinesError::ConvertWkb => "Failed to convert from wkb".to_owned(),
            LinesError::MakeNative => "Failed to convert wkb array to native array".to_owned(),
            LinesError::NotLineStrings(found) => {
                let start = "Input must be LineString array not ".to_owned();
                start.concat(found.as_str())
            },
        }
    }
}

/// What follows a step that succeeded.
pub open spec fn after_success(step: Step) -> Action {
    match step {
        Step::ReadNative => Action::Perform(Step::InspectType),
        Step::CastToWkb => Action::Perform(Step::ConvertWkb),
        Step::ConvertWkb => Action::Perform(Step::MakeNative),
        Step::MakeNative => Action::Perform(Step::InspectType),
        Step::InspectType => Action::Accept,
    }
}

/// What follows a step that failed.
pub open spec fn after_failure(step: Step, text: String) -> Action {
    match step {
        Step::ReadNative => Action::Perform(Step::CastToWkb),
        Step::CastToWkb => Action::Reject(LinesError::CastToWkb),
        Step::ConvertWkb => Action::Reject(LinesError::ConvertWkb),
        Step::MakeNative => Action::Reject(LinesError::MakeNative),
        Step::InspectType => Action::Reject(LinesError::NotLineStrings(text)),
    }
}

/// What to do after a step of the conversion, which begins with [`Step::ReadNative`].
pub fn as_geoarrow_lines(step: Step, event: Event) -> (action: Action)
    ensures
        action == (match event {
            Event::Succeeded => after_success(step),
            Event::Failed(text) => after_failure(step, text),
        }),
{
    match event {
        Event::Succeeded => match step {
            Step::ReadNative => Action::Perform(Step::InspectType),
            Step::CastToWkb => Action::Perform(Step::ConvertWkb),
            Step::ConvertWkb => Action::Perform(Step::MakeNative),
            Step::MakeNative => Action::Perform(Step::InspectType),
            Step::InspectType => Action::Accept,
        },
        Event::Failed(text) => match step {
            Step::ReadNative => Action::Perform(Step::CastToWkb),
            Step::CastToWkb => Action::Reject(LinesError::CastToWkb),
            Step::ConvertWkb => Action::Reject(LinesError::ConvertWkb),
            Step::MakeNative => Action::Reject(LinesError::MakeNative),
            Step::InspectType => Action::Reject(LinesError::NotLineStrings(text)),
        },
    }
}

/// How many steps may still follow.
pub open spec fn steps_left(step: Step) -> nat {
    match step {
        Step::ReadNative => 4,
        Step::CastToWkb => 3,
        Step::ConvertWkb => 2,
        Step::MakeNative => 1,
        Step::InspectType => 0,
    }
}

/// The conversion comes to an end: every step that follows leaves fewer steps.
pub proof fn law_conversion_ends(step: Step, text: String)
    ensures
        after_success(step) matches Action::Perform(next) ==> steps_left(next) < steps_left(step),
        after_failure(step, text) matches Action::Perform(next) ==> steps_left(next) < steps_left(
            step,
        ),
{
}

/// Only line strings are accepted: acceptance follows nothing but a look at the type.
pub proof fn law_accepts_only_line_strings(step: Step, text: String)
    ensures
        after_success(step) is Accept <==> step == Step::InspectType,
        !(after_failure(step, text) is Accept),
{
}

} // verus!
