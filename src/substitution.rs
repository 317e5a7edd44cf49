use std::collections::HashMap;
use vstd::prelude::*;
use vstd::string::StringSliceAdditionalSpecFns;
use vstd::utf8::{
    decode_utf8, encode_utf8_decode_utf8, encode_utf8_valid_utf8, is_char_boundary,
    is_char_boundary_iff_not_is_continuation_byte,
};

verus! {

#[verifier::external_type_specification]
#[verifier::external_body]
pub struct ExEnvsubstError(envsubst::Error);

/// What envsubst hands back: the text, or its own error.
pub type SubstitutionOutcome = Result<String, envsubst::Error>;

/// `s` holds one of the characters that envsubst refuses in variables.
pub open spec fn has_reserved_char(s: Seq<char>) -> bool {
    s.contains('$') || s.contains('{') || s.contains('}')
}

/// The text `${name}`.
pub open spec fn var_pattern(name: Seq<char>) -> Seq<char> {
    seq!['$', '{'] + name + seq!['}']
}

/// Every occurrence of the nonempty `p` in `t`, taken from left to right
/// without overlap, replaced by `v`.
pub open spec fn replace_all(t: Seq<char>, p: Seq<char>, v: Seq<char>) -> Seq<char>
    decreases t.len(),
{
    if p.len() == 0 || t.len() < p.len() {
        t
    } else if t.take(p.len() as int) == p {
        v + replace_all(t.skip(p.len() as int), p, v)
    } else {
        seq![t[0]] + replace_all(t.skip(1), p, v)
    }
}

/// Relies on envsubst::substitute, handed a map of the single variable
/// `name`: it fails exactly when the name or the value holds `$`, `{` or `}`,
/// and otherwise returns the template with each `${name}` replaced by
/// `value`, through one `str::replace`.
#[verifier::external_body]
pub(crate) fn substitute_variable(template: &str, name: &str, value: &str) -> (r: SubstitutionOutcome)
    ensures
        (r is Err) == (has_reserved_char(name@) || has_reserved_char(value@)),
        !(has_reserved_char(name@) || has_reserved_char(value@)) ==> r is Ok && r->Ok_0@ == replace_all(template@, var_pattern(name@), value@),
{
    let mut variables = HashMap::new();
    variables.insert(name.to_string(), value.to_string());
    envsubst::substitute(template, &variables)
}

/// Some variable of `env` is named `name`.
pub open spec fn defines(env: Map<String, String>, name: Seq<char>) -> bool {
    exists|k: String| #[trigger] env.contains_key(k) && k@ == name
}

/// The value of the variable named `name`.
pub open spec fn value_of(env: Map<String, String>, name: Seq<char>) -> Seq<char> {
    env[choose|k: String| #[trigger] env.contains_key(k) && k@ == name]@
}

/// Relies on HashMap::get on `String` keys looked up by `&str`: it finds the
/// entry whose key has the characters of `name`. (vstd's own contract of `get`
/// holds only for key types with a hashing model, which `String` lacks.)
#[verifier::external_body]
pub(crate) fn lookup_variable<'a>(env: &'a HashMap<String, String>, name: &str) -> (r: Option<&'a String>)
    ensures
        (r is Some) == defines(env@, name@),
        r is Some ==> (forall|k: String| #[trigger] env@.contains_key(k) && k@ == name@ ==> env@[k] == *r->Some_0),
{
    env.get(name)
}

/// A byte that may stand in a placeholder's name.
pub open spec fn is_name_byte(b: u8) -> bool {
    b != 36u8 && b != 123u8 && b != 125u8
}

/// `t[i..j]` reads `${NAME}`, NAME being nonempty and free of `$`, `{`, `}`.
pub open spec fn placeholder_at(t: Seq<u8>, i: int, j: int) -> bool {
    &&& 0 <= i
    &&& i + 4 <= j <= t.len()
    &&& t[i] == 36u8
    &&& t[i + 1] == 123u8
    &&& t[j - 1] == 125u8
    &&& forall|k: int| i + 2 <= k < j - 1 ==> is_name_byte(#[trigger] t[k])
}

pub open spec fn has_placeholder_from(t: Seq<u8>, from: int) -> bool {
    exists|i: int, j: int| from <= i && #[trigger] placeholder_at(t, i, j)
}

/// `t[i..j]` is the first placeholder of `t` that starts at `from` or later.
pub open spec fn first_placeholder_from(t: Seq<u8>, from: int, i: int, j: int) -> bool {
    &&& from <= i
    &&& placeholder_at(t, i, j)
    &&& forall|i2: int, j2: int| from <= i2 && #[trigger] placeholder_at(t, i2, j2) ==> i <= i2
}

/// A placeholder's end is fixed by its start: the first `}` after the name.
pub proof fn lemma_placeholder_end(t: Seq<u8>, i: int, j1: int, j2: int)
    requires
        placeholder_at(t, i, j1),
        placeholder_at(t, i, j2),
    ensures
        j1 == j2,
{
    if j1 < j2 {
        assert(is_name_byte(t[j1 - 1]));
    } else if j2 < j1 {
        assert(is_name_byte(t[j2 - 1]));
    }
}

/// Bounds of the first placeholder of `t` that starts at `from` or later, if
/// there is one.
pub(crate) fn find_placeholder(t: &[u8], from: usize) -> (r: Option<(usize, usize)>)
    ensures
        match r {
            Some((i, j)) => first_placeholder_from(t@, from as int, i as int, j as int),
            None => !has_placeholder_from(t@, from as int),
        },
{
    let n = t.len();
    let mut i: usize = from;
    while i < n
        invariant
            n == t@.len(),
            from <= i,
            from <= n ==> i <= n,
            forall|i2: int, j2: int| from <= i2 < i ==> !#[trigger] placeholder_at(t@, i2, j2),
        decreases n - i,
    {
        if i + 1 < n && t[i] == 36u8 && t[i + 1] == 123u8 {
            let mut k: usize = i + 2;
            while k < n && t[k] != 36u8 && t[k] != 123u8 && t[k] != 125u8
                invariant
                    n == t@.len(),
                    i + 2 <= k <= n,
                    forall|m: int| i + 2 <= m < k ==> is_name_byte(#[trigger] t@[m]),
                decreases n - k,
            {
                k = k + 1;
            }
            if k < n && t[k] == 125u8 && k > i + 2 {
                assert(placeholder_at(t@, i as int, k as int + 1));
                return Some((i, k + 1));
            }
            assert forall|j2: int| !#[trigger] placeholder_at(t@, i as int, j2) by {
                if placeholder_at(t@, i as int, j2) {
                    if j2 - 1 < k {
                        assert(is_name_byte(t@[j2 - 1]));
                    } else if j2 - 1 > k {
                        assert(is_name_byte(t@[k as int]));
                    }
                }
            }
        }
        i = i + 1;
    }
    None
}

/// The characters of the name in the placeholder `b[i..j]`.
pub open spec fn name_of(b: Seq<u8>, i: int, j: int) -> Seq<char> {
    decode_utf8(b.subrange(i + 2, j - 1))
}

/// The name of the placeholder `conf[i..j]`, as a slice of `conf`. Every cut
/// falls beside an ASCII byte, hence on a character boundary.
pub(crate) fn name_at(conf: &str, i: usize, j: usize) -> (r: &str)
    requires
        placeholder_at(conf.spec_bytes(), i as int, j as int),
    ensures
        r.spec_bytes() == conf.spec_bytes().subrange(i + 2, j - 1),
        r@ == name_of(conf.spec_bytes(), i as int, j as int),
{
    broadcast use encode_utf8_valid_utf8, encode_utf8_decode_utf8, is_char_boundary_iff_not_is_continuation_byte;

    let ghost b = conf.spec_bytes();
    proof {
        encode_utf8_valid_utf8(conf@);
        is_char_boundary_iff_not_is_continuation_byte(b, i as int + 1);
    }
    let (_, rest) = conf.split_at(i + 1);
    proof {
        encode_utf8_valid_utf8(rest@);
    }
    assert(rest.spec_bytes()[0] == 123u8);
    assert(is_char_boundary(rest.spec_bytes(), 1)) by {
        reveal_with_fuel(is_char_boundary, 2);
    }
    let (_, tail) = rest.split_at(1);
    assert(tail.spec_bytes() =~= b.subrange(i + 2, b.len() as int));
    assert(tail.spec_bytes()[j - 1 - (i + 2)] == 125u8);
    proof {
        encode_utf8_valid_utf8(tail@);
        is_char_boundary_iff_not_is_continuation_byte(tail.spec_bytes(), j - 1 - (i + 2));
    }
    let (name, _) = tail.split_at(j - 1 - (i + 2));
    assert(name.spec_bytes() =~= b.subrange(i + 2, j - 1));
    name
}

} // verus!
