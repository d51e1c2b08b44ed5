//! Who made a device, told by the first digits of its link-layer address.

use crate::text::{chars_of, string_of};
use vstd::prelude::*;
use vstd::utf8::{encode_utf8, is_ascii_chars, is_char_boundary};

verus! {

/// The organization that the IEEE registries name for the link-layer
/// address `mac`, as `oui_data::lookup` finds it.
pub uninterp spec fn registered_organization(mac: Seq<char>) -> Option<Seq<char>>;

/// The upper-case form of `text`, as `str::to_uppercase` gives it.
pub uninterp spec fn uppercased(text: Seq<char>) -> Seq<char>;

/// `str::to_uppercase` gives the upper-case form of the text. The form is a
/// function of the characters alone: it goes by the tables of Unicode and by
/// no locale.
pub assume_specification[ str::to_uppercase ](text: &str) -> (upper: String)
    ensures
        upper@ == uppercased(text@),
;

/// `text` without its colons and hyphens.
pub open spec fn without_separators(text: Seq<char>) -> Seq<char>
    decreases text.len(),
{
    if text.len() == 0 {
        Seq::empty()
    } else {
        let front = without_separators(text.drop_last());
        if text.last() == ':' || text.last() == '-' {
            front
        } else {
            front.push(text.last())
        }
    }
}

/// What the registries are searched for when `mac` is not plain ASCII: its
/// upper-case form without separators.
pub open spec fn searched_text(mac: Seq<char>) -> Seq<char> {
    without_separators(uppercased(mac))
}

/// Whether `text`, where its UTF-8 form has at least `bytes` bytes, can be
/// cut after that many bytes without cutting a character in two.
pub open spec fn cut_is_clean(text: Seq<char>, bytes: int) -> bool {
    encode_utf8(text).len() >= bytes ==> is_char_boundary(encode_utf8(text), bytes)
}

/// Whether the registries can be searched for `mac`. The search cuts the
/// text after 9, after 7 and after 6 bytes; in ASCII every such cut is
/// clean.
pub open spec fn can_look_up(mac: Seq<char>) -> bool {
    is_ascii_chars(mac) || (cut_is_clean(searched_text(mac), 9) && cut_is_clean(
        searched_text(mac),
        7,
    ) && cut_is_clean(searched_text(mac), 6))
}

/// Calls `oui_data::lookup` and hands out the name of the organization of
/// the record it finds. The contract claims that the result is a function
/// of the characters of `mac` alone: the registries are compiled into the
/// crate. `lookup` cuts the text that it searches for at fixed byte offsets,
/// so a text in which such a cut would fall inside a character is kept out.
#[verifier::external_body]
fn lookup_organization(mac: &str) -> (organization: Option<String>)
    requires
        can_look_up(mac@),
    ensures
        organization.deep_view() == registered_organization(mac@),
{
    match oui_data::lookup(mac) {
        Some(record) => Some(record.organization().to_string()),
        None => None,
    }
}

/// `text` without its colons and hyphens.
fn strip_separators(text: &Vec<char>) -> (out: Vec<char>)
    ensures
        out@ == without_separators(text@),
{
    let mut out: Vec<char> = Vec::new();
    let mut i: usize = 0;
    assert(text@.take(0) == Seq::<char>::empty());
    while i < text.len()
        invariant
            i <= text.len(),
            out@ == without_separators(text@.take(i as int)),
        decreases text.len() - i,
    {
        assert(text@.take(i + 1).drop_last() == text@.take(i as int));
        if text[i] != ':' && text[i] != '-' {
            out.push(text[i]);
        }
        i += 1;
    }
    assert(text@.take(text.len() as int) == text@);
    out
}

/// Whether `text` can be cut after `bytes` bytes, where it is that long.
fn has_clean_cut(text: &str, bytes: usize) -> (clean: bool)
    ensures
        clean == cut_is_clean(text@, bytes as int),
{
    text.as_bytes().len() < bytes || text.is_char_boundary(bytes)
}

/// Whether the registries can be searched for `mac`.
pub fn can_look_up_mac(mac: &str) -> (possible: bool)
    ensures
        possible == can_look_up(mac@),
{
    if mac.is_ascii() {
        return true;
    }
    let upper = mac.to_uppercase();
    let searched = string_of(&strip_separators(&chars_of(upper.as_str())));
    has_clean_cut(searched.as_str(), 9) && has_clean_cut(searched.as_str(), 7) && has_clean_cut(
        searched.as_str(),
        6,
    )
}

/// The vendor of the device with the link-layer address `mac`: the
/// organization that the registries name for it. There is none where the
/// registries name none, and none where they cannot be searched for `mac`.
pub fn get_vendor_from_mac(mac: &str) -> (vendor: Option<String>)
    ensures
        vendor.deep_view() == if can_look_up(mac@) {
            registered_organization(mac@)
        } else {
            None
        },
{
    if can_look_up_mac(mac) {
        lookup_organization(mac)
    } else {
        None
    }
}

/// The vendor as it is shown: its name, or `Unknown`.
pub fn vendor_label(vendor: Option<String>) -> (label: String)
    ensures
        label@ == match vendor {
            Some(name) => name@,
            None => "Unknown"@,
        },
{
    match vendor {
        Some(name) => name,
        None => "Unknown".to_owned(),
    }
}

} // verus!
