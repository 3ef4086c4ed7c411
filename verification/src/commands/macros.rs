//! Macros: recording keys in a register, and replaying them.

use crate::commands::links::string_views;
use vstd::prelude::*;

verus! {

/// The register that macros are kept in when none is named.
pub const MACRO_REGISTER: char = '@';

/// A key as a macro holds it: those with a longer name stand in angle brackets.
pub open spec fn macro_key(key: Seq<char>) -> Seq<char> {
    if key.len() == 1 {
        key
    } else {
        "<"@ + key + ">"@
    }
}

/// The text of a macro.
pub open spec fn macro_text(keys: Seq<Seq<char>>) -> Seq<char>
    decreases keys.len(),
{
    if keys.len() == 0 {
        Seq::empty()
    } else {
        macro_text(keys.drop_last()) + macro_key(keys.last())
    }
}

fn write_macro(keys: &Vec<String>) -> (text: String)
    ensures
        text@ == macro_text(string_views(keys@)),
{
    let ghost all = string_views(keys@);
    let mut text = String::new();
    let mut i: usize = 0;
    assert(all.take(0) =~= Seq::<Seq<char>>::empty());
    while i < keys.len()
        invariant
            i <= keys@.len(),
            all == string_views(keys@),
            text@ == macro_text(all.take(i as int)),
        decreases keys.len() - i,
    {
        let ghost before = text@;
        assert(all.take(i + 1).drop_last() =~= all.take(i as int));
        let key = keys[i].as_str();
        if key.unicode_len() == 1 {
            text.append(key);
        } else {
            text.append("<");
            text.append(key);
            text.append(">");
        }
        assert(text@ =~= before + macro_key(all[i as int]));
        i += 1;
    }
    assert(all.take(i as int) =~= all);
    text
}

/// A message about a register.
pub open spec fn about_register(before: Seq<char>, register: char, after: Seq<char>) -> Seq<char> {
    before + seq![register] + after
}

fn register_message(before: &str, register: char, after: &str) -> (m: String)
    ensures
        m@ == about_register(before@, register, after@),
{
    let mut m = String::from_str(before);
    m.push(register);
    m.append(after);
    assert(m@ =~= about_register(before@, register, after@));
    m
}

/// What recording a macro does.
pub enum Recording {
    /// It begins.
    Started { status: String },
    /// It ends: the text goes to the register, and the status is shown once it is written.
    Finished { register: char, text: String, status: String },
}

/// Why a macro is not replayed.
pub enum ReplayError {
    /// It is being replayed.
    Replaying(String),
    /// The register does not hold one value.
    Empty(String),
    /// The text of the register is no macro.
    Invalid(String),
}

/// The macro that is being recorded, with its register, and the registers whose macros are being
/// replayed.
pub struct Macros {
    pub recording: Option<(char, Vec<String>)>,
    pub replaying: Vec<char>,
}

/// Where a register is among those being replayed.
fn is_among(registers: &Vec<char>, register: char) -> (b: bool)
    ensures
        b == registers@.contains(register),
{
    let mut i: usize = 0;
    while i < registers.len()
        invariant
            i <= registers@.len(),
            forall|j: int| 0 <= j < i ==> registers@[j] != register,
        decreases registers.len() - i,
    {
        if registers[i] == register {
            assert(registers@[i as int] == register);
            return true;
        }
        i += 1;
    }
    false
}

impl Macros {
    /// No macro is replayed while it is being replayed.
    pub open spec fn wf(&self) -> bool {
        self.replaying@.no_duplicates()
    }

    pub fn new() -> (m: Macros)
        ensures
            m.wf(),
            m.recording is None,
            m.replaying@ == Seq::<char>::empty(),
    {
        Macros { recording: None, replaying: Vec::new() }
    }

    /// Takes down a key.
    pub fn press(&mut self, key: String)
        ensures
            final(self).replaying == old(self).replaying,
            old(self).recording is None ==> final(self).recording is None,
            old(self).recording matches Some((r, keys)) ==> (final(self).recording matches Some(
                (r2, keys2),
            ) && r2 == r && keys2@ == keys@.push(key)),
    {
        match self.recording.take() {
            Some((register, keys)) => {
                let mut keys = keys;
                keys.push(key);
                self.recording = Some((register, keys));
            },
            None => {},
        }
    }

    /// Begins to record a macro, or ends it. The key that ends the recording is no part of it.
    pub fn record_macro(&mut self, register: Option<char>) -> (done: Recording)
        ensures
            final(self).replaying == old(self).replaying,
            match old(self).recording {
                Some((r, keys)) => {
                    &&& final(self).recording is None
                    &&& done matches Recording::Finished { register: to, text, status } && to == r
                        && status@ == about_register("Recorded to register ["@, r, "]"@) && text@
                        == macro_text(
                        string_views(
                            if keys@.len() > 0 {
                                keys@.drop_last()
                            } else {
                                keys@
                            },
                        ),
                    )
                },
                None => {
                    let r = match register {
                        Some(r) => r,
                        None => MACRO_REGISTER,
                    };
                    &&& final(self).recording matches Some((r2, keys)) && r2 == r && keys@ == Seq::<
                        String,
                    >::empty()
                    &&& done matches Recording::Started { status } && status@ == about_register(
                        "Recording to register ["@,
                        r,
                        "]"@,
                    )
                },
            },
    {
        match self.recording.take() {
            Some((register, keys)) => {
                let mut keys = keys;
                keys.pop();
                Recording::Finished {
                    register,
                    text: write_macro(&keys),
                    status: register_message("Recorded to register [", register, "]"),
                }
            },
            None => {
                let register = match register {
                    Some(r) => r,
                    None => MACRO_REGISTER,
                };
                self.recording = Some((register, Vec::new()));
                Recording::Started {
                    status: register_message("Recording to register [", register, "]"),
                }
            },
        }
    }

    /// Begins to replay the macro of a register. `values` is what the register holds, and `parsed`
    /// the keys of its one value, or why that is no macro. A macro that is being replayed is not
    /// replayed again, so that none runs without end.
    pub fn replay_macro(
        &mut self,
        register: Option<char>,
        values: Option<&Vec<String>>,
        parsed: Result<Vec<String>, String>,
    ) -> (keys: Result<Vec<String>, ReplayError>)
        requires
            old(self).wf(),
        ensures
            final(self).wf(),
            final(self).recording == old(self).recording,
            ({
                let r = match register {
                    Some(r) => r,
                    None => MACRO_REGISTER,
                };
                if old(self).replaying@.contains(r) {
                    &&& final(self).replaying@ == old(self).replaying@
                    &&& keys matches Err(ReplayError::Replaying(m)) && m@ == about_register(
                        "Cannot replay from register ["@,
                        r,
                        "] because already replaying from same register"@,
                    )
                } else if !(values matches Some(v) && v@.len() == 1) {
                    &&& final(self).replaying@ == old(self).replaying@
                    &&& keys matches Err(ReplayError::Empty(m)) && m@ == about_register(
                        "Register ["@,
                        r,
                        "] empty"@,
                    )
                } else {
                    match parsed {
                        Ok(found) => {
                            &&& keys == Ok::<Vec<String>, ReplayError>(found)
                            &&& final(self).replaying@ == old(self).replaying@.push(r)
                        },
                        Err(e) => {
                            &&& final(self).replaying@ == old(self).replaying@
                            &&& keys matches Err(ReplayError::Invalid(m)) && m@
                                == "Invalid macro: "@ + e@
                        },
                    }
                }
            }),
    {
        let register = match register {
            Some(r) => r,
            None => MACRO_REGISTER,
        };
        if is_among(&self.replaying, register) {
            return Err(
                ReplayError::Replaying(
                    register_message(
                        "Cannot replay from register [",
                        register,
                        "] because already replaying from same register",
                    ),
                ),
            );
        }
        let one = match values {
            Some(v) => v.len() == 1,
            None => false,
        };
        if !one {
            return Err(ReplayError::Empty(register_message("Register [", register, "] empty")));
        }
        match parsed {
            Ok(found) => {
                self.replaying.push(register);
                Ok(found)
            },
            Err(e) => {
                let mut m = String::from_str("Invalid macro: ");
                m.append(e.as_str());
                Err(ReplayError::Invalid(m))
            },
        }
    }

    /// The macro that was begun last has been replayed.
    pub fn replayed(&mut self)
        requires
            old(self).wf(),
        ensures
            final(self).wf(),
            final(self).recording == old(self).recording,
            final(self).replaying@ == (if old(self).replaying@.len() > 0 {
                old(self).replaying@.drop_last()
            } else {
                old(self).replaying@
            }),
    {
        self.replaying.pop();
    }
}

/// The text of a macro grows with every key: what is recorded in two parts is the text of the one
/// before the text of the other.
pub proof fn macros_are_written_in_order(a: Seq<Seq<char>>, b: Seq<Seq<char>>)
    ensures
        macro_text(a + b) == macro_text(a) + macro_text(b),
    decreases b.len(),
{
    if b.len() == 0 {
        assert(a + b =~= a);
        assert(macro_text(a) + macro_text(b) =~= macro_text(a));
    } else {
        assert((a + b).drop_last() =~= a + b.drop_last());
        macros_are_written_in_order(a, b.drop_last());
        assert(macro_text(a + b) =~= macro_text(a) + macro_text(b));
    }
}

/// A key of one character is written as it is, and a key with a longer name between angle brackets:
/// no two keys are written alike.
pub proof fn keys_are_told_apart(a: Seq<char>, b: Seq<char>)
    requires
        a.len() > 0,
        b.len() > 0,
    ensures
        a.len() == 1 ==> macro_text(seq![a]) == a,
        a.len() > 1 ==> macro_text(seq![a])[0] == '<' && macro_text(seq![a]).last() == '>'
            && macro_text(seq![a]).subrange(1, a.len() + 1 as int) == a,
        macro_key(a) == macro_key(b) ==> a == b,
{
    reveal_strlit("<");
    reveal_strlit(">");
    assert(seq![a].drop_last() =~= Seq::<Seq<char>>::empty());
    reveal_with_fuel(macro_text, 2);
    assert(macro_text(seq![a]) =~= macro_key(a));
    if a.len() > 1 {
        assert(macro_key(a).subrange(1, a.len() + 1 as int) =~= a);
    }
    if macro_key(a) == macro_key(b) && a.len() > 1 {
        assert(macro_key(b).subrange(1, a.len() + 1 as int) =~= b);
    }
}

} // verus!
