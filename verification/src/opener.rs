//! The open command's decisions: which tag value a request names, and what
//! target, if any, opening it would hand to the system. Handing the target
//! to an OS-level viewer is the caller's business.
use vstd::prelude::*;
use crate::tags::{TagsMap, TagValue, TagValueV};
use crate::omap::{map_has, map_get};

verus! {

/// Looks the named tag up in a container's tag map; only a tag that is
/// present and carries a value is returned. The file name is what a caller
/// would report about; it does not steer the lookup.
pub fn retrieve_tag_value<'a>(file: &str, tag: &str, map: &'a TagsMap) -> (r: Option<
    &'a TagValue,
>)
    requires
        map.wf(),
    ensures
        match r {
            Some(v) => map_has(map@, tag@) && map_get(map@, tag@) == Some(v.deep_view()),
            None => !map_has(map@, tag@) || map_get(map@, tag@) is None,
        },
{
    let _ = file;
    match map.get(tag) {
        Some(maybe) => match maybe {
            Some(v) => Some(v),
            None => None,
        },
        None => None,
    }
}

/// The target opening a tag value would use: only a URL value has one.
pub fn open_target(value: &TagValue) -> (r: Option<String>)
    ensures
        match r {
            Some(u) => value.deep_view() matches TagValueV::Url(s) && u@ == s,
            None => !(value.deep_view() is Url),
        },
{
    match value {
        TagValue::Url(u) => Some(u.clone()),
        _ => None,
    }
}

} // verus!
