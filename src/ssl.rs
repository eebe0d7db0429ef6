//! Parsers for two statements of the shading language: pipeline attributes
//! (`key = value`) and geometry-shader yield expressions.
use vstd::prelude::*;

verus! {

/// Attributes that can be set in a pipeline.
#[derive(Clone, Copy, Debug, PartialEq, Eq, Structural)]
pub enum PipelineAttribute {
    /// Maximum vertices that the geometry shader can output.
    GeometryShaderMaxVertices(u32),
    /// Number of times the geometry shader must be invoked.
    GeometryShaderInvokations(u32),
}

/// Expressions that can be yielded in a geometry shader.
#[derive(Clone, Debug, PartialEq, Eq)]
pub enum GeometryYieldExpression {
    /// Yield a primitive.
    YieldPrimitive,
    /// Yield a primitive's vertex (fold vertex).
    YieldFoldVertex(String),
}

/// Error that can occur when parsing shading-language code.
#[derive(Clone, Debug, PartialEq, Eq)]
pub enum ParseError {
    ExpressionError(String),
}

/// Characters with the Unicode `White_Space` property, as `char::is_whitespace`
/// documents them.
pub open spec fn is_white(c: char) -> bool {
    ||| ('\t' <= c && c <= '\r')
    ||| c == ' '
    ||| c == '\u{85}'
    ||| c == '\u{A0}'
    ||| c == '\u{1680}'
    ||| ('\u{2000}' <= c && c <= '\u{200A}')
    ||| c == '\u{2028}'
    ||| c == '\u{2029}'
    ||| c == '\u{202F}'
    ||| c == '\u{205F}'
    ||| c == '\u{3000}'
}

fn is_white_exec(c: char) -> (r: bool)
    ensures
        r == is_white(c),
{
    ('\t' <= c && c <= '\r') || c == ' ' || c == '\u{85}' || c == '\u{A0}' || c == '\u{1680}'
        || ('\u{2000}' <= c && c <= '\u{200A}') || c == '\u{2028}' || c == '\u{2029}'
        || c == '\u{202F}' || c == '\u{205F}' || c == '\u{3000}'
}

/// `s` without its leading white space.
pub open spec fn trim_start(s: Seq<char>) -> Seq<char>
    decreases s.len(),
{
    if s.len() > 0 && is_white(s[0]) {
        trim_start(s.drop_first())
    } else {
        s
    }
}

/// `s` without its trailing white space.
pub open spec fn trim_end(s: Seq<char>) -> Seq<char>
    decreases s.len(),
{
    if s.len() > 0 && is_white(s.last()) {
        trim_end(s.drop_last())
    } else {
        s
    }
}

/// `s` without leading and trailing white space.
pub open spec fn trimmed(s: Seq<char>) -> Seq<char> {
    trim_end(trim_start(s))
}

/// `s` without leading and trailing white space.
pub fn trim(s: &str) -> (r: &str)
    ensures
        r@ == trimmed(s@),
{
    let n = s.unicode_len();
    let mut i: usize = 0;
    assert(s@.subrange(0, n as int) =~= s@);
    while i < n && is_white_exec(s.get_char(i))
        invariant
            n == s@.len(),
            i <= n,
            trim_start(s@) == trim_start(s@.subrange(i as int, n as int)),
        decreases n - i,
    {
        assert(s@.subrange(i as int, n as int).drop_first() =~= s@.subrange(i + 1, n as int));
        i += 1;
    }
    assert(trim_start(s@) == s@.subrange(i as int, n as int));
    let mut j: usize = n;
    while j > i && is_white_exec(s.get_char(j - 1))
        invariant
            n == s@.len(),
            i <= j <= n,
            trim_end(s@.subrange(i as int, n as int)) == trim_end(s@.subrange(i as int, j as int)),
        decreases j,
    {
        assert(s@.subrange(i as int, j as int).drop_last() =~= s@.subrange(i as int, j - 1));
        j -= 1;
    }
    s.substring_char(i, j)
}

/// `a` and `b` hold the same characters.
fn same_chars(a: &str, b: &str) -> (r: bool)
    ensures
        r == (a@ == b@),
{
    let n = a.unicode_len();
    if n != b.unicode_len() {
        return false;
    }
    let mut i: usize = 0;
    while i < n
        invariant
            n == a@.len(),
            n == b@.len(),
            i <= n,
            forall|k: int| 0 <= k < i ==> a@[k] == b@[k],
        decreases n - i,
    {
        if a.get_char(i) != b.get_char(i) {
            return false;
        }
        i += 1;
    }
    assert(a@ =~= b@);
    true
}

pub open spec fn is_digit(c: char) -> bool {
    '0' <= c && c <= '9'
}

/// The number that a string of decimal digits writes.
pub open spec fn decimal_value(d: Seq<char>) -> int
    decreases d.len(),
{
    if d.len() == 0 {
        0
    } else {
        decimal_value(d.drop_last()) * 10 + (d.last() as int - '0' as int)
    }
}

/// What `u32::from_str` accepts: an optional `+`, then one or more decimal
/// digits whose value fits in a `u32`.
pub open spec fn decimal_u32(s: Seq<char>) -> Option<u32> {
    let d = unsigned_digits(s);
    if d.len() > 0 && all_digits(d) && decimal_value(d) <= u32::MAX {
        Some(decimal_value(d) as u32)
    } else {
        None
    }
}

/// `s` without one leading `+`.
pub open spec fn unsigned_digits(s: Seq<char>) -> Seq<char> {
    if s.len() > 0 && s[0] == '+' {
        s.drop_first()
    } else {
        s
    }
}

pub open spec fn all_digits(d: Seq<char>) -> bool {
    forall|k: int| 0 <= k < d.len() ==> is_digit(#[trigger] d[k])
}

/// A longer string of digits never writes a smaller number.
proof fn lemma_decimal_grows(d: Seq<char>, i: int)
    requires
        0 <= i <= d.len(),
        forall|k: int| 0 <= k < d.len() ==> is_digit(#[trigger] d[k]),
    ensures
        decimal_value(d.subrange(0, i)) <= decimal_value(d),
    decreases d.len() - i,
{
    if i < d.len() {
        lemma_decimal_grows(d, i + 1);
        assert(d.subrange(0, i + 1).drop_last() =~= d.subrange(0, i));
        assert(d.subrange(0, i + 1).last() == d[i]);
        assert(decimal_value(d.subrange(0, i)) >= 0) by {
            lemma_decimal_nonneg(d.subrange(0, i));
        }
    } else {
        assert(d.subrange(0, i) =~= d);
    }
}

proof fn lemma_decimal_nonneg(d: Seq<char>)
    requires
        forall|k: int| 0 <= k < d.len() ==> is_digit(#[trigger] d[k]),
    ensures
        decimal_value(d) >= 0,
    decreases d.len(),
{
    if d.len() > 0 {
        assert forall|k: int| 0 <= k < d.drop_last().len() implies is_digit(#[trigger] d.drop_last()[k]) by {
            assert(d.drop_last()[k] == d[k]);
        }
        lemma_decimal_nonneg(d.drop_last());
        assert(is_digit(d[d.len() - 1]));
    }
}

/// Parses a `u32` as `u32::from_str` does.
pub fn parse_u32(s: &str) -> (r: Option<u32>)
    ensures
        r == decimal_u32(s@),
{
    let n = s.unicode_len();
    let mut i: usize = 0;
    if n > 0 && s.get_char(0) == '+' {
        i = 1;
    }
    let ghost d = unsigned_digits(s@);
    let ghost st = i as int;
    assert(d =~= s@.subrange(st, n as int));
    if i == n {
        return None;
    }
    let mut v: u64 = 0;
    while i < n
        invariant
            n == s@.len(),
            d == s@.subrange(st, n as int),
            d == unsigned_digits(s@),
            0 <= st <= i <= n,
            st < n,
            forall|k: int| st <= k < i ==> is_digit(#[trigger] s@[k]),
            v == decimal_value(s@.subrange(st, i as int)),
            v <= u32::MAX,
        decreases n - i,
    {
        let c = s.get_char(i);
        if !('0' <= c && c <= '9') {
            assert(d[i - st] == c);
            assert(!is_digit(d[i - st]));
            assert(!all_digits(d));
            assert(decimal_u32(s@) == None::<u32>);
            return None;
        }
        let nv: u64 = v * 10 + (c as u32 - '0' as u32) as u64;
        assert(s@.subrange(st, i + 1).drop_last() =~= s@.subrange(st, i as int));
        if nv > u32::MAX as u64 {
            proof {
                if all_digits(d) {
                    assert(d.subrange(0, i + 1 - st) =~= s@.subrange(st, i + 1));
                    lemma_decimal_grows(d, i + 1 - st);
                    assert(decimal_value(d) > u32::MAX);
                }
                assert(decimal_u32(s@) == None::<u32>);
            }
            return None;
        }
        v = nv;
        i += 1;
    }
    assert(s@.subrange(st, n as int) =~= d);
    Some(v as u32)
}

/// `s` starts with the characters of `p`.
fn starts_with_chars(s: &str, p: &str) -> (r: bool)
    ensures
        r == (p@.len() <= s@.len() && s@.subrange(0, p@.len() as int) == p@),
{
    let n = s.unicode_len();
    let m = p.unicode_len();
    if m > n {
        return false;
    }
    same_chars(s.substring_char(0, m), p)
}

/// `i` is the position of the first `=` in `s`.
pub open spec fn first_equal(s: Seq<char>, i: int) -> bool {
    0 <= i < s.len() && s[i] == '=' && forall|j: int| 0 <= j < i ==> s[j] != '='
}

/// What a pipeline attribute `key = value` reads as: the attribute, or the
/// message of the error. The key is trimmed before it is matched, and the
/// value is trimmed before it is read as a `u32`.
pub open spec fn attribute_result(s: Seq<char>) -> Result<PipelineAttribute, Seq<char>> {
    if !s.contains('=') {
        Err("cannot find ="@)
    } else {
        let i = choose|i: int| first_equal(s, i);
        let key = s.subrange(0, i);
        let value = trimmed(s.subrange(i + 1, s.len() as int));
        if s.len() - i <= 1 {
            Err("no value"@)
        } else if trimmed(key) == "geometry_shader_max_vertices"@ {
            match decimal_u32(value) {
                Some(n) => Ok(PipelineAttribute::GeometryShaderMaxVertices(n)),
                None => Err("unable to parse geometry_shader_max_vertices, found "@ + value),
            }
        } else if trimmed(key) == "geometry_shader_invokations"@ {
            match decimal_u32(value) {
                Some(n) => Ok(PipelineAttribute::GeometryShaderInvokations(n)),
                None => Err("unable to parse geometry_shader_invokation, found "@ + value),
            }
        } else {
            Err("expected a valid pipeline attribute, found "@ + key)
        }
    }
}

/// An error carrying `lit` followed by `tail`.
fn message(lit: &str, tail: &str) -> (r: ParseError)
    ensures
        r matches ParseError::ExpressionError(m) && m@ == lit@ + tail@,
{
    let mut m = String::from_str(lit);
    m.append(tail);
    ParseError::ExpressionError(m)
}

impl PipelineAttribute {
    /// Parses `key = value`.
    pub fn parse_str(s: &str) -> (r: Result<PipelineAttribute, ParseError>)
        ensures
            match r {
                Ok(a) => attribute_result(s@) == Ok::<PipelineAttribute, Seq<char>>(a),
                Err(ParseError::ExpressionError(m)) => attribute_result(s@) == Err::<PipelineAttribute, Seq<char>>(m@),
            },
    {
        let n = s.unicode_len();
        let mut i: usize = 0;
        while i < n && s.get_char(i) != '='
            invariant
                n == s@.len(),
                i <= n,
                forall|j: int| 0 <= j < i ==> s@[j] != '=',
            decreases n - i,
        {
            i += 1;
        }
        if i == n {
            assert(!s@.contains('='));
            return Err(ParseError::ExpressionError(String::from_str("cannot find =")));
        }
        assert(first_equal(s@, i as int));
        assert(s@.contains('='));
        let ghost c = choose|c: int| first_equal(s@, c);
        assert(c == i) by {
            if c < i {
                assert(s@[c] != '=');
            }
            if c > i {
                assert(s@[i as int] != '=');
            }
        }
        if n - i <= 1 {
            return Err(ParseError::ExpressionError(String::from_str("no value")));
        }
        let key = s.substring_char(0, i);
        let value = trim(s.substring_char(i + 1, n));
        let tk = trim(key);
        if same_chars(tk, "geometry_shader_max_vertices") {
            match parse_u32(value) {
                Some(v) => Ok(PipelineAttribute::GeometryShaderMaxVertices(v)),
                None => Err(message("unable to parse geometry_shader_max_vertices, found ", value)),
            }
        } else if same_chars(tk, "geometry_shader_invokations") {
            match parse_u32(value) {
                Some(v) => Ok(PipelineAttribute::GeometryShaderInvokations(v)),
                None => Err(message("unable to parse geometry_shader_invokation, found ", value)),
            }
        } else {
            Err(message("expected a valid pipeline attribute, found ", key))
        }
    }
}

impl std::str::FromStr for PipelineAttribute {
    type Err = ParseError;

    fn from_str(s: &str) -> Result<PipelineAttribute, ParseError> {
        PipelineAttribute::parse_str(s)
    }
}

/// `s` is `yield ` followed by at least one character.
pub open spec fn is_fold_yield(s: Seq<char>) -> bool {
    s.len() > "yield "@.len() && s.subrange(0, "yield "@.len() as int) == "yield "@
}

impl GeometryYieldExpression {
    /// Parses `yieldprim` or `yield <expression>`.
    pub fn parse_str(s: &str) -> (r: Result<GeometryYieldExpression, ParseError>)
        ensures
            match r {
                Ok(GeometryYieldExpression::YieldPrimitive) => s@ == "yieldprim"@,
                Ok(GeometryYieldExpression::YieldFoldVertex(e)) => s@ != "yieldprim"@ && is_fold_yield(s@)
                    && e@ == s@.subrange("yield "@.len() as int, s@.len() as int),
                Err(ParseError::ExpressionError(m)) => s@ != "yieldprim"@ && !is_fold_yield(s@)
                    && m@ == "expected yield, found "@ + s@,
            },
    {
        if same_chars(s, "yieldprim") {
            Ok(GeometryYieldExpression::YieldPrimitive)
        } else if starts_with_chars(s, "yield ") && s.unicode_len() > "yield ".unicode_len() {
            let n = s.unicode_len();
            let k = "yield ".unicode_len();
            Ok(GeometryYieldExpression::YieldFoldVertex(String::from_str(s.substring_char(k, n))))
        } else {
            Err(message("expected yield, found ", s))
        }
    }
}

impl std::str::FromStr for GeometryYieldExpression {
    type Err = ParseError;

    fn from_str(s: &str) -> Result<GeometryYieldExpression, ParseError> {
        GeometryYieldExpression::parse_str(s)
    }
}

} // verus!
