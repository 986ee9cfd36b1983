//! The names under which items show: a table from the names that the game
//! uses to the names that a player reads.
use vstd::prelude::*;

verus! {

#[verifier::external_type_specification]
#[verifier::external_body]
pub struct ExValue(serde_json::Value);

/// The texts that a table of translations holds, by name: the members of
/// the table, where it is an object, whose value is a string.
pub uninterp spec fn texts_of(lang_data: serde_json::Value) -> Map<Seq<char>, Seq<char>>;

/// The name under which the item of the name `actor_name` shows.
///
/// This is `serde_json::Value::get` with a string, followed by
/// `serde_json::Value::as_str`: the value of the member `actor_name` of the
/// table, where the table is an object, has such a member, and that
/// member's value is a string; nothing in every other case. Verus does not
/// read either function; the contract is taken from their source.
#[verifier::external_body]
pub fn translate_name(actor_name: &str, lang_data: serde_json::Value) -> (r: Option<String>)
    ensures
        match r {
            Some(text) => texts_of(lang_data).contains_key(actor_name@) && text@ == texts_of(
                lang_data,
            )[actor_name@],
            None => !texts_of(lang_data).contains_key(actor_name@),
        },
{
    lang_data.get(actor_name)?.as_str().map(String::from)
}

/// The name to show for the item of the name `actor_name`: its translation,
/// where `translated` holds one, and the name itself where it holds none.
pub fn shown_name(actor_name: &str, translated: Option<String>) -> (name: String)
    ensures
        name@ == match translated {
            Some(text) => text@,
            None => actor_name@,
        },
{
    match translated {
        Some(text) => text,
        None => actor_name.to_owned(),
    }
}

/// The name under which the item of the name `actor_name` shows: its
/// translation, or the name itself where the table holds none.
pub fn display_name(actor_name: &str, lang_data: serde_json::Value) -> (name: String)
    ensures
        name@ == if texts_of(lang_data).contains_key(actor_name@) {
            texts_of(lang_data)[actor_name@]
        } else {
            actor_name@
        },
{
    let translated = translate_name(actor_name, lang_data);
    shown_name(actor_name, translated)
}

} // verus!
