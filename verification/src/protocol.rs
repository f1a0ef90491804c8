//! The message that asks for column updates.
use vstd::prelude::*;

use crate::map::{Record, TextMap};
use crate::text::{decimal, decimal_string, outcome};

verus! {

/// The name of the pipe that carries updates.
pub const PIPE_NAME: &'static str = "super-tabs:update";

/// A request to write columns of the tab that holds a pane.
#[derive(Debug)]
pub struct UpdatePayload {
    pub version: u8,
    pub pane_id: u32,
    pub updates: TextMap<String>,
}

/// What an [`UpdatePayload`] stands for.
#[verifier::ext_equal]
pub struct PayloadView {
    pub version: u8,
    pub pane_id: u32,
    pub updates: Map<Seq<char>, Seq<char>>,
}

impl View for UpdatePayload {
    type V = PayloadView;

    open spec fn view(&self) -> PayloadView {
        PayloadView { version: self.version, pane_id: self.pane_id, updates: self.updates@ }
    }
}

impl Record for UpdatePayload {
    fn duplicate(&self) -> (r: Self) {
        UpdatePayload {
            version: self.version,
            pane_id: self.pane_id,
            updates: self.updates.duplicate(),
        }
    }

    fn agrees(&self, other: &Self) -> (r: bool) {
        self.version == other.version && self.pane_id == other.pane_id && self.updates.agrees(
            &other.updates,
        )
    }
}

impl PartialEq for UpdatePayload {
    fn eq(&self, other: &Self) -> (r: bool) {
        self.agrees(other)
    }
}

impl vstd::std_specs::cmp::PartialEqSpecImpl for UpdatePayload {
    open spec fn obeys_eq_spec() -> bool {
        true
    }

    open spec fn eq_spec(&self, other: &Self) -> bool {
        self@ == other@
    }
}

/// What is wrong with a payload: a version other than the first, or nothing to write.
pub open spec fn payload_fault(payload: PayloadView) -> Option<Seq<char>> {
    if payload.version != 1 {
        Some("unsupported payload version "@ + decimal(payload.version as nat))
    } else if payload.updates == Map::<Seq<char>, Seq<char>>::empty() {
        Some("payload must include at least one column update"@)
    } else {
        None
    }
}

impl UpdatePayload {
    /// Accepts what was read from the JSON text of a payload, or says what is wrong: the text
    /// could not be read, or the payload is not valid.
    pub fn parse(decoded: Result<UpdatePayload, String>) -> (r: Result<Self, String>)
        ensures
            match decoded {
                Err(error) => outcome(r) == Err::<UpdatePayload, Seq<char>>(
                    "invalid update payload: "@ + error@,
                ),
                Ok(payload) => match payload_fault(payload@) {
                    Some(fault) => outcome(r) == Err::<UpdatePayload, Seq<char>>(fault),
                    None => r == Ok::<UpdatePayload, String>(payload),
                },
            },
    {
        match decoded {
            Err(error) => {
                let mut message = "invalid update payload: ".to_owned();
                message.append(error.as_str());
                Err(message)
            },
            Ok(payload) => match payload.validate() {
                Ok(()) => Ok(payload),
                Err(fault) => Err(fault),
            },
        }
    }

    /// Passes on the JSON text of this payload, or says what is wrong: the payload is not
    /// valid, or the text could not be made.
    pub fn to_json(&self, encoded: Result<String, String>) -> (r: Result<String, String>)
        ensures
            match payload_fault(self@) {
                Some(fault) => outcome(r) == Err::<String, Seq<char>>(fault),
                None => match encoded {
                    Ok(json) => r == Ok::<String, String>(json),
                    Err(error) => outcome(r) == Err::<String, Seq<char>>(
                        "failed to encode payload: "@ + error@,
                    ),
                },
            },
    {
        match self.validate() {
            Err(fault) => Err(fault),
            Ok(()) => match encoded {
                Ok(json) => Ok(json),
                Err(error) => {
                    let mut message = "failed to encode payload: ".to_owned();
                    message.append(error.as_str());
                    Err(message)
                },
            },
        }
    }

    /// Says what is wrong with this payload, where anything is.
    pub fn validate(&self) -> (r: Result<(), String>)
        ensures
            match payload_fault(self@) {
                Some(fault) => outcome(r) == Err::<(), Seq<char>>(fault),
                None => r == Ok::<(), String>(()),
            },
    {
        if self.version != 1 {
            let mut message = "unsupported payload version ".to_owned();
            message.append(decimal_string(self.version as u64).as_str());
            return Err(message);
        }
        if self.updates.is_empty() {
            return Err("payload must include at least one column update".to_owned());
        }
        Ok(())
    }
}

/// A message is valid just if it is of the first version and gives a text to any column.
pub proof fn messages_of_the_first_version_are_valid(payload: PayloadView)
    ensures
        payload_fault(payload) is None <==> payload.version == 1 && exists|column: Seq<char>| #[trigger]
            payload.updates.contains_key(column),
{
    if payload.updates == Map::<Seq<char>, Seq<char>>::empty() {
    } else if forall|column: Seq<char>| !#[trigger] payload.updates.contains_key(column) {
        assert(payload.updates =~= Map::<Seq<char>, Seq<char>>::empty());
    }
}

} // verus!
