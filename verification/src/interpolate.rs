//! `${VAR}` references in configuration text, found with a regular
//! expression, and their replacement by the variables' values.
use vstd::prelude::*;
use vstd::string::*;
use crate::config::ConfigError;
use crate::textsplit::{replace, replace_all};

verus! {

/// `regex::Regex`, carried through as an opaque value.
#[verifier::external_type_specification]
#[verifier::external_body]
pub struct ExRegex(regex::Regex);

/// `regex::Error`, carried through as an opaque value.
#[verifier::external_type_specification]
#[verifier::external_body]
pub struct ExRegexError(regex::Error);

/// A compiled regular expression with the pattern it was compiled from.
/// Only `Pattern::compile` makes one, so the two always agree.
pub struct Pattern {
    re: regex::Regex,
    source: String,
}

/// What `regex::Regex::captures_iter` finds for `pattern` in `text`: for
/// each successive non-overlapping match, group 0 (the whole match) and
/// group 1, each when it took part.
pub uninterp spec fn regex_captures(pattern: Seq<char>, text: Seq<char>) -> Seq<(Option<Seq<char>>, Option<Seq<char>>)>;

/// Whether `regex::Regex::new` accepts `pattern`: it is valid syntax and
/// its compiled form stays within the default size limits.
pub uninterp spec fn regex_compiles(pattern: Seq<char>) -> bool;

/// `regex::Regex::new`: compiles `pattern`. The contract names whether it
/// succeeds as a function of the pattern and says nothing more.
#[verifier::external_body]
fn compile_regex(pattern: &str) -> (r: Result<regex::Regex, regex::Error>)
    ensures
        r is Ok <==> regex_compiles(pattern@),
{
    regex::Regex::new(pattern)
}

/// `regex::Regex::captures_iter` with `Captures::get` for groups 0 and 1:
/// the contract names the result as a function of the pattern the regex
/// was compiled from and the text, and says nothing more of it.
#[verifier::external_body]
fn captures_of(p: &Pattern, text: &str) -> (r: Vec<(Option<String>, Option<String>)>)
    ensures
        r.deep_view() == regex_captures(p.source@, text@),
{
    let mut out = Vec::new();
    for c in p.re.captures_iter(text) {
        let whole = match c.get(0) {
            Some(m) => Some(m.as_str().to_string()),
            None => None,
        };
        let group = match c.get(1) {
            Some(m) => Some(m.as_str().to_string()),
            None => None,
        };
        out.push((whole, group));
    }
    out
}

impl Pattern {
    /// Compiles `source`; `None` when it is not a valid expression.
    pub fn compile(source: &str) -> (r: Option<Pattern>)
        ensures
            r is Some <==> regex_compiles(source@),
            r matches Some(p) ==> p.source() == source@,
    {
        match compile_regex(source) {
            Ok(re) => Some(Pattern { re, source: String::from_str(source) }),
            Err(_) => None,
        }
    }

    /// The pattern's text.
    pub closed spec fn source(&self) -> Seq<char> {
        self.source@
    }
}

/// The expression for a reference: `${`, an upper-case name (letters,
/// digits, `_`, not starting with a digit), `}`.
pub open spec fn env_pattern() -> Seq<char> {
    "\\$\\{([A-Z_][A-Z0-9_]*)\\}"@
}

/// Every capture has both groups and a non-empty whole match.
pub open spec fn captures_complete(caps: Seq<(Option<Seq<char>>, Option<Seq<char>>)>) -> bool {
    forall|i: int| 0 <= i < caps.len() ==> ((#[trigger] caps[i]).0 matches Some(w) && w.len() > 0 && caps[i].1 is Some)
}

/// Each capture as (reference, variable name).
pub open spec fn reference_pairs(caps: Seq<(Option<Seq<char>>, Option<Seq<char>>)>) -> Seq<(Seq<char>, Seq<char>)> {
    caps.map_values(|c: (Option<Seq<char>>, Option<Seq<char>>)| (c.0->0, c.1->0))
}

/// The `${VAR}` references of `content`, in order, each as (reference,
/// variable name); `None` when the expression does not compile or a match
/// lacks its name.
pub fn env_var_references(content: &str) -> (r: Option<Vec<(String, String)>>)
    ensures
        match r {
            Some(refs) => {
                &&& captures_complete(regex_captures(env_pattern(), content@))
                &&& refs.deep_view() == reference_pairs(regex_captures(env_pattern(), content@))
            },
            None => true,
        },
        r is Some <==> (regex_compiles(env_pattern()) && captures_complete(regex_captures(env_pattern(), content@))),
{
    let p = match Pattern::compile("\\$\\{([A-Z_][A-Z0-9_]*)\\}") {
        Some(p) => p,
        None => {
            return None;
        },
    };
    let caps = captures_of(&p, content);
    let ghost cv = caps.deep_view();
    let mut refs: Vec<(String, String)> = Vec::new();
    let mut i: usize = 0;
    while i < caps.len()
        invariant
            cv == caps.deep_view(),
            cv == regex_captures(env_pattern(), content@),
            i <= caps.len(),
            captures_complete(cv.take(i as int)),
            refs.deep_view() == reference_pairs(cv.take(i as int)),
        decreases caps.len() - i,
    {
        let ghost r0 = refs.deep_view();
        assert(cv[i as int] == caps[i as int].deep_view());
        match (&caps[i].0, &caps[i].1) {
            (Some(w), Some(n)) => {
                if w.as_str().is_empty() {
                    assert(!captures_complete(cv)) by {
                        assert(!(cv[i as int].0 matches Some(x) && x.len() > 0));
                    }
                    return None;
                }
                refs.push((w.clone(), n.clone()));
                assert(refs.deep_view() =~= r0.push((w@, n@)));
                assert(cv[i as int] == (Some(w@), Some(n@)));
            },
            _ => {
                assert(!captures_complete(cv)) by {
                    assert(!(cv[i as int].0 matches Some(x) && x.len() > 0 && cv[i as int].1 is Some));
                }
                return None;
            },
        }
        assert(cv.take(i + 1) =~= cv.take(i as int).push(cv[i as int]));
        assert(reference_pairs(cv.take(i + 1)) =~= reference_pairs(cv.take(i as int)).push((cv[i as int].0->0, cv[i as int].1->0)));
        assert(refs.deep_view() =~= reference_pairs(cv.take(i + 1)));
        i = i + 1;
    }
    assert(cv.take(caps.len() as int) =~= cv);
    Some(refs)
}

/// Replacing the references one after the other: each reference, where
/// its variable has a value, is replaced everywhere by that value; the
/// first reference whose variable has none is the error.
pub open spec fn spec_interpolate(s: Seq<char>, refs: Seq<(Seq<char>, Seq<char>)>, values: Seq<Option<Seq<char>>>) -> Result<Seq<char>, Seq<char>>
    decreases refs.len(),
{
    if refs.len() == 0 || values.len() == 0 {
        Ok(s)
    } else {
        match values[0] {
            None => Err(refs[0].1),
            Some(v) => spec_interpolate(replace_all(s, refs[0].0, v), refs.drop_first(), values.drop_first()),
        }
    }
}

/// Replaces the references `refs` (as `env_var_references` gives them) by
/// the values of their variables (`values[i]` for `refs[i]`): a missing
/// value is `MissingEnvVar` with the variable's name.
pub fn interpolate_env_vars(content: &str, refs: &Vec<(String, String)>, values: &Vec<Option<String>>) -> (r: Result<String, ConfigError>)
    requires
        refs.len() == values.len(),
        forall|i: int| 0 <= i < refs.len() ==> (#[trigger] refs[i]).0@.len() > 0,
    ensures
        match spec_interpolate(content@, refs.deep_view(), values.deep_view()) {
            Ok(s) => r matches Ok(t) && t@ == s,
            Err(name) => r matches Err(ConfigError::MissingEnvVar(n)) && n@ == name,
        },
{
    let ghost rv = refs.deep_view();
    let ghost vv = values.deep_view();
    let mut cur = String::from_str(content);
    let mut i: usize = 0;
    assert(rv.skip(0) =~= rv);
    assert(vv.skip(0) =~= vv);
    while i < refs.len()
        invariant
            rv == refs.deep_view(),
            vv == values.deep_view(),
            refs.len() == values.len(),
            forall|j: int| 0 <= j < refs.len() ==> (#[trigger] refs[j]).0@.len() > 0,
            i <= refs.len(),
            spec_interpolate(content@, rv, vv) == spec_interpolate(cur@, rv.skip(i as int), vv.skip(i as int)),
        decreases refs.len() - i,
    {
        assert(rv.skip(i as int)[0] == refs[i as int].deep_view());
        assert(vv.skip(i as int)[0] == values[i as int].deep_view());
        assert(rv.skip(i as int).drop_first() =~= rv.skip(i + 1));
        assert(vv.skip(i as int).drop_first() =~= vv.skip(i + 1));
        match &values[i] {
            None => {
                return Err(ConfigError::MissingEnvVar(refs[i].1.clone()));
            },
            Some(v) => {
                cur = replace(cur.as_str(), refs[i].0.as_str(), v.as_str());
            },
        }
        i = i + 1;
    }
    assert(rv.skip(i as int).len() == 0);
    Ok(cur)
}

} // verus!
