//! Tag names and tag values. A tag name excludes control characters,
//! whitespace and a small set of separator characters; a tag value is a
//! tagged union of an integer, a boolean, a parsed URL, or a plain string.
//! Untyped arguments are sniffed in the order number, boolean, URL, string.
use vstd::prelude::*;
use vstd::string::StrSliceExecFns;
use crate::text::{
    spec_parse_i64, parse_i64, str_eq, dec_of_int, push_dec_i64, chars_to_string,
};
use crate::omap::OrderedMap;

verus! {

/// The Unicode control characters, as `char::is_control` classifies them.
pub open spec fn is_control_char(c: char) -> bool {
    (c as int) < 0x20 || (0x7f <= (c as int) <= 0x9f)
}

/// The Unicode white-space characters, as `char::is_whitespace` classifies
/// them.
pub open spec fn is_space_char(c: char) -> bool {
    let v = c as int;
    (9 <= v <= 13) || v == 0x20 || v == 0x85 || v == 0xa0 || v == 0x1680 || (0x2000 <= v
        <= 0x200a) || v == 0x2028 || v == 0x2029 || v == 0x202f || v == 0x205f || v == 0x3000
}

/// Characters allowed in a tag name: no control characters, no whitespace,
/// and none of the separators `\ : , !`.
pub open spec fn tag_key_char_ok(c: char) -> bool {
    !is_control_char(c) && !is_space_char(c) && c != '\\' && c != ':' && c != ',' && c != '!'
}

pub open spec fn tag_key_ok(s: Seq<char>) -> bool {
    forall|i: int| 0 <= i < s.len() ==> tag_key_char_ok(#[trigger] s[i])
}

fn tag_key_char_ok_exec(c: char) -> (r: bool)
    ensures
        r == tag_key_char_ok(c),
{
    let v = c as u32;
    assert(v == c as int);
    if v < 0x20 || (0x7f <= v && v <= 0x9f) {
        return false;
    }
    if (9 <= v && v <= 13) || v == 0x20 || v == 0x85 || v == 0xa0 || v == 0x1680 || (0x2000 <= v
        && v <= 0x200a) || v == 0x2028 || v == 0x2029 || v == 0x202f || v == 0x205f || v == 0x3000 {
        return false;
    }
    c != '\\' && c != ':' && c != ',' && c != '!'
}

/// The error returned when a tag name holds a refused character.
#[derive(Debug)]
pub struct InvalidTagChars;

impl InvalidTagChars {
    pub fn message(&self) -> (r: String)
        ensures
            r@ == "the provided tag key contains invalid characters"@,
    {
        String::from_str("the provided tag key contains invalid characters")
    }
}

/// A validated tag name.
#[derive(Debug, Clone, PartialEq, Eq, PartialOrd, Ord, Hash)]
pub struct TagKey {
    key: String,
}

impl TagKey {
    pub closed spec fn view(&self) -> Seq<char> {
        self.key@
    }

    pub open spec fn wf(&self) -> bool {
        tag_key_ok(self.view())
    }

    pub fn inner(&self) -> (r: &str)
        ensures
            r@ == self.view(),
    {
        self.key.as_str()
    }

    /// Accepts exactly the strings whose characters are all allowed in a tag
    /// name.
    pub fn parse(value: &str) -> (r: Result<TagKey, InvalidTagChars>)
        ensures
            tag_key_ok(value@) ==> r is Ok && r->Ok_0.view() == value@,
            !tag_key_ok(value@) ==> r is Err,
    {
        let n = value.unicode_len();
        let mut i: usize = 0;
        while i < n
            invariant
                i <= n,
                n == value@.len(),
                forall|j: int| 0 <= j < i ==> tag_key_char_ok(#[trigger] value@[j]),
            decreases n - i,
        {
            if !tag_key_char_ok_exec(value.get_char(i)) {
                return Err(InvalidTagChars);
            }
            i = i + 1;
        }
        Ok(TagKey { key: value.to_owned() })
    }
}

impl core::str::FromStr for TagKey {
    type Err = InvalidTagChars;

    fn from_str(value: &str) -> Result<Self, Self::Err> {
        TagKey::parse(value)
    }
}

/// The normalized serialization of `s` parsed as an absolute URL, when it
/// parses; what it is for given characters is fixed by the `url` crate.
pub uninterp spec fn url_norm_of(s: Seq<char>) -> Option<Seq<char>>;

/// Relies on `url::Url::parse` and `Url::as_str`: parsing succeeds or fails
/// depending on the input characters alone, and `as_str` returns the parsed
/// URL's serialization.
#[verifier::external_body]
fn url_normalize(value: &str) -> (r: Option<String>)
    ensures
        match r {
            Some(t) => url_norm_of(value@) == Some(t@),
            None => url_norm_of(value@) is None,
        },
{
    match url::Url::parse(value) {
        Ok(u) => Some(u.as_str().to_owned()),
        Err(_) => None,
    }
}

/// A tag's payload. A URL payload holds the normalized serialization that
/// parsing produced.
#[derive(Debug)]
pub enum TagValue {
    Number(i64),
    Bool(bool),
    Url(String),
    Simple(String),
}

/// The mathematical shape of a tag payload.
pub enum TagValueV {
    Number(int),
    Bool(bool),
    Url(Seq<char>),
    Simple(Seq<char>),
}

impl DeepView for TagValue {
    type V = TagValueV;

    open spec fn deep_view(&self) -> TagValueV {
        match self {
            TagValue::Number(v) => TagValueV::Number(*v as int),
            TagValue::Bool(v) => TagValueV::Bool(*v),
            TagValue::Url(v) => TagValueV::Url(v@),
            TagValue::Simple(v) => TagValueV::Simple(v@),
        }
    }
}

/// The rendering of a tag payload as text.
pub open spec fn spec_tag_value_text(v: TagValueV) -> Seq<char> {
    match v {
        TagValueV::Number(n) => dec_of_int(n),
        TagValueV::Bool(b) => if b {
            "true"@
        } else {
            "false"@
        },
        TagValueV::Url(s) => s,
        TagValueV::Simple(s) => s,
    }
}

/// The payload an untyped argument sniffs to: a number when it reads as one,
/// else a boolean, else a URL, else the plain string.
pub open spec fn spec_infer(s: Seq<char>) -> TagValueV {
    if spec_parse_i64(s) is Some {
        TagValueV::Number(spec_parse_i64(s)->Some_0)
    } else if s == "true"@ {
        TagValueV::Bool(true)
    } else if s == "false"@ {
        TagValueV::Bool(false)
    } else {
        match url_norm_of(s) {
            Some(t) => TagValueV::Url(t),
            None => TagValueV::Simple(s),
        }
    }
}

impl TagValue {
    /// A fresh value equal to this one.
    pub fn duplicate(&self) -> (r: TagValue)
        ensures
            r == *self,
    {
        match self {
            TagValue::Number(v) => TagValue::Number(*v),
            TagValue::Bool(v) => TagValue::Bool(*v),
            TagValue::Url(v) => TagValue::Url(v.clone()),
            TagValue::Simple(v) => TagValue::Simple(v.clone()),
        }
    }

    /// The value rendered as text, as listings print it.
    pub fn text(&self) -> (r: String)
        ensures
            r@ == spec_tag_value_text(self.deep_view()),
    {
        match self {
            TagValue::Number(v) => {
                let mut out: Vec<char> = Vec::new();
                push_dec_i64(&mut out, *v);
                let r = chars_to_string(&out);
                assert(r@ =~= dec_of_int(*v as int));
                r
            },
            TagValue::Bool(v) => {
                if *v {
                    String::from_str("true")
                } else {
                    String::from_str("false")
                }
            },
            TagValue::Url(v) => v.clone(),
            TagValue::Simple(v) => v.clone(),
        }
    }

    /// Reads the value as a decimal integer, exactly when it is one.
    pub fn parse_num(value: &str) -> (r: Option<TagValue>)
        ensures
            match r {
                Some(t) => spec_parse_i64(value@) is Some && t.deep_view() == TagValueV::Number(
                    spec_parse_i64(value@)->Some_0),
                None => spec_parse_i64(value@) is None,
            },
    {
        match parse_i64(value) {
            Some(v) => Some(TagValue::Number(v)),
            None => None,
        }
    }

    /// Reads the value as a boolean: exactly `true` or `false`.
    pub fn parse_bool(value: &str) -> (r: Option<TagValue>)
        ensures
            match r {
                Some(t) => (value@ == "true"@ || value@ == "false"@) && t.deep_view()
                    == TagValueV::Bool(value@ == "true"@),
                None => value@ != "true"@ && value@ != "false"@,
            },
    {
        if str_eq(value, "true") {
            Some(TagValue::Bool(true))
        } else if str_eq(value, "false") {
            Some(TagValue::Bool(false))
        } else {
            None
        }
    }

    /// Reads the value as an absolute URL, keeping its normalized form.
    pub fn parse_url(value: &str) -> (r: Option<TagValue>)
        ensures
            match r {
                Some(t) => url_norm_of(value@) is Some && t.deep_view() == TagValueV::Url(
                    url_norm_of(value@)->Some_0),
                None => url_norm_of(value@) is None,
            },
    {
        match url_normalize(value) {
            Some(u) => Some(TagValue::Url(u)),
            None => None,
        }
    }

    /// Sniffs an untyped argument: number, then boolean, then URL, falling
    /// back to the plain string.
    pub fn infer(value: &str) -> (r: TagValue)
        ensures
            r.deep_view() == spec_infer(value@),
    {
        match Self::parse_num(value) {
            Some(t) => t,
            None => {
                match Self::parse_bool(value) {
                    Some(t) => t,
                    None => {
                        match Self::parse_url(value) {
                            Some(t) => t,
                            None => TagValue::Simple(value.to_owned()),
                        }
                    },
                }
            },
        }
    }
}

/// A parsed tag argument: the name, and the payload when one was given.
pub type Tag = (String, Option<TagValue>);

/// The ordered tag map shared by the store and its file entries.
pub type TagsMap = OrderedMap<Option<TagValue>>;

/// A fresh tag map holding the same entries.
pub fn tags_dup(m: &TagsMap) -> (r: TagsMap)
    requires
        m.wf(),
    ensures
        r@ == m@,
        r.wf(),
{
    let n = m.len();
    let mut r = TagsMap::new();
    let mut i: usize = 0;
    while i < n
        invariant
            i <= n,
            n == m@.len(),
            m.wf(),
            r.wf(),
            r@ =~= m@.take(i as int),
        decreases n - i,
    {
        let pair = m.get_index(i);
        let value: Option<TagValue> = match &pair.1 {
            Some(v) => Some(v.duplicate()),
            None => None,
        };
        proof {
            if i > 0 {
                assert(r@.last() == m@[i as int - 1]);
                assert(crate::text::lex_lt(m@[i as int - 1].0, m@[i as int].0));
            }
        }
        r.push_monotone(pair.0.clone(), value);
        i = i + 1;
        assert(r@ =~= m@.take(i as int));
    }
    assert(m@.take(n as int) =~= m@);
    r
}

/// The position of the first colon, when the argument holds one.
pub open spec fn first_colon(s: Seq<char>) -> Option<int>
    decreases s.len(),
{
    if s.len() == 0 {
        None
    } else if s[0] == ':' {
        Some(0int)
    } else {
        match first_colon(s.skip(1)) {
            Some(i) => Some(i + 1),
            None => None,
        }
    }
}

pub proof fn lemma_first_colon_at(s: Seq<char>, i: int)
    requires
        0 <= i < s.len(),
        s[i] == ':',
        forall|j: int| 0 <= j < i ==> s[j] != ':',
    ensures
        first_colon(s) == Some(i),
    decreases i,
{
    if i > 0 {
        assert(s[0] != ':');
        let t = s.skip(1);
        assert(forall|j: int| 0 <= j < t.len() ==> #[trigger] t[j] == s[j + 1]);
        lemma_first_colon_at(t, i - 1);
    }
}

pub proof fn lemma_first_colon_none(s: Seq<char>)
    requires
        forall|j: int| 0 <= j < s.len() ==> s[j] != ':',
    ensures
        first_colon(s) is None,
    decreases s.len(),
{
    if s.len() > 0 {
        let t = s.skip(1);
        assert(forall|j: int| 0 <= j < t.len() ==> #[trigger] t[j] == s[j + 1]);
        lemma_first_colon_none(t);
    }
}

fn find_colon(s: &str) -> (r: Option<usize>)
    ensures
        match r {
            Some(i) => i < s@.len() && first_colon(s@) == Some(i as int),
            None => first_colon(s@) is None,
        },
{
    let n = s.unicode_len();
    let mut i: usize = 0;
    while i < n
        invariant
            i <= n,
            n == s@.len(),
            forall|j: int| 0 <= j < i ==> s@[j] != ':',
        decreases n - i,
    {
        if s.get_char(i) == ':' {
            proof {
                lemma_first_colon_at(s@, i as int);
            }
            return Some(i);
        }
        i = i + 1;
    }
    proof {
        lemma_first_colon_none(s@);
    }
    None
}

/// How an untyped tag argument splits and sniffs: `name` alone or `name:`
/// give a presence-only tag, `name:value` sniffs the value; an empty name or
/// an empty argument is refused.
pub open spec fn spec_parse_tag(s: Seq<char>) -> Result<(Seq<char>, Option<TagValueV>), Seq<char>> {
    match first_colon(s) {
        Some(i) => {
            if i == 0 {
                Err("tag name is empty"@)
            } else if i == s.len() - 1 {
                Ok((s.take(i), None))
            } else {
                Ok((s.take(i), Some(spec_infer(s.skip(i + 1)))))
            }
        },
        None => {
            if s.len() == 0 {
                Err("tag is empty"@)
            } else {
                Ok((s, None))
            }
        },
    }
}

/// Parses an untyped `name`, `name:` or `name:value` tag argument.
pub fn parse_tag(arg: &str) -> (r: Result<Tag, String>)
    ensures
        match r {
            Ok(t) => spec_parse_tag(arg@) == Ok::<_, Seq<char>>((t.0@, t.1.deep_view())),
            Err(e) => spec_parse_tag(arg@) == Err::<(Seq<char>, Option<TagValueV>), _>(e@),
        },
{
    let n = arg.unicode_len();
    match find_colon(arg) {
        Some(i) => {
            if i == 0 {
                return Err(String::from_str("tag name is empty"));
            }
            let name = arg.substring_char(0, i).to_owned();
            assert(name@ =~= arg@.take(i as int));
            if i + 1 == n {
                Ok((name, None))
            } else {
                let value = arg.substring_char(i + 1, n);
                assert(value@ =~= arg@.skip(i as int + 1));
                let tv = TagValue::infer(value);
                Ok((name, Some(tv)))
            }
        },
        None => {
            if n == 0 {
                return Err(String::from_str("tag is empty"));
            }
            Ok((arg.to_owned(), None))
        },
    }
}

/// How a typed tag argument splits: both a name and a value must be present.
pub open spec fn spec_get_name_value(s: Seq<char>) -> Result<(Seq<char>, Seq<char>), Seq<char>> {
    match first_colon(s) {
        Some(i) => {
            if i == 0 {
                Err("tag name is empty"@)
            } else if i == s.len() - 1 {
                Err("missing url data"@)
            } else {
                Ok((s.take(i), s.skip(i + 1)))
            }
        },
        None => Err("missing tag value"@),
    }
}

/// Splits a `name:value` argument for the typed tag forms.
pub fn get_name_value<'a>(arg: &'a str) -> (r: Result<(&'a str, &'a str), String>)
    ensures
        match r {
            Ok(t) => spec_get_name_value(arg@) == Ok::<_, Seq<char>>((t.0@, t.1@)),
            Err(e) => spec_get_name_value(arg@) == Err::<(Seq<char>, Seq<char>), _>(e@),
        },
{
    let n = arg.unicode_len();
    match find_colon(arg) {
        Some(i) => {
            if i == 0 {
                return Err(String::from_str("tag name is empty"));
            }
            if i + 1 == n {
                return Err(String::from_str("missing url data"));
            }
            let name = arg.substring_char(0, i);
            assert(name@ =~= arg@.take(i as int));
            let value = arg.substring_char(i + 1, n);
            assert(value@ =~= arg@.skip(i as int + 1));
            Ok((name, value))
        },
        None => Err(String::from_str("missing tag value")),
    }
}

pub open spec fn spec_parse_url_tag(s: Seq<char>) -> Result<(Seq<char>, Option<TagValueV>), Seq<char>> {
    match spec_get_name_value(s) {
        Ok(nv) => match url_norm_of(nv.1) {
            Some(u) => Ok((nv.0, Some(TagValueV::Url(u)))),
            None => Err("invalid url provided"@),
        },
        Err(e) => Err(e),
    }
}

/// Parses a `name:value` argument whose value must be a URL.
pub fn parse_url_tag(arg: &str) -> (r: Result<Tag, String>)
    ensures
        match r {
            Ok(t) => spec_parse_url_tag(arg@) == Ok::<_, Seq<char>>((t.0@, t.1.deep_view())),
            Err(e) => spec_parse_url_tag(arg@) == Err::<(Seq<char>, Option<TagValueV>), _>(e@),
        },
{
    let (name, value) = match get_name_value(arg) {
        Ok(nv) => nv,
        Err(e) => {
            return Err(e);
        },
    };
    match TagValue::parse_url(value) {
        Some(t) => Ok((name.to_owned(), Some(t))),
        None => Err(String::from_str("invalid url provided")),
    }
}

pub open spec fn spec_parse_num_tag(s: Seq<char>) -> Result<(Seq<char>, Option<TagValueV>), Seq<char>> {
    match spec_get_name_value(s) {
        Ok(nv) => match spec_parse_i64(nv.1) {
            Some(v) => Ok((nv.0, Some(TagValueV::Number(v)))),
            None => Err("invalid num provided"@),
        },
        Err(e) => Err(e),
    }
}

/// Parses a `name:value` argument whose value must be a decimal integer.
pub fn parse_num_tag(arg: &str) -> (r: Result<Tag, String>)
    ensures
        match r {
            Ok(t) => spec_parse_num_tag(arg@) == Ok::<_, Seq<char>>((t.0@, t.1.deep_view())),
            Err(e) => spec_parse_num_tag(arg@) == Err::<(Seq<char>, Option<TagValueV>), _>(e@),
        },
{
    let (name, value) = match get_name_value(arg) {
        Ok(nv) => nv,
        Err(e) => {
            return Err(e);
        },
    };
    match TagValue::parse_num(value) {
        Some(t) => Ok((name.to_owned(), Some(t))),
        None => Err(String::from_str("invalid num provided")),
    }
}

pub open spec fn spec_parse_bool_tag(s: Seq<char>) -> Result<(Seq<char>, Option<TagValueV>), Seq<char>> {
    match spec_get_name_value(s) {
        Ok(nv) => {
            if nv.1 == "true"@ || nv.1 == "false"@ {
                Ok((nv.0, Some(TagValueV::Bool(nv.1 == "true"@))))
            } else {
                Err("invalid bool provided"@)
            }
        },
        Err(e) => Err(e),
    }
}

/// Parses a `name:value` argument whose value must be a boolean.
pub fn parse_bool_tag(arg: &str) -> (r: Result<Tag, String>)
    ensures
        match r {
            Ok(t) => spec_parse_bool_tag(arg@) == Ok::<_, Seq<char>>((t.0@, t.1.deep_view())),
            Err(e) => spec_parse_bool_tag(arg@) == Err::<(Seq<char>, Option<TagValueV>), _>(e@),
        },
{
    let (name, value) = match get_name_value(arg) {
        Ok(nv) => nv,
        Err(e) => {
            return Err(e);
        },
    };
    match TagValue::parse_bool(value) {
        Some(t) => Ok((name.to_owned(), Some(t))),
        None => Err(String::from_str("invalid bool provided")),
    }
}

} // verus!
