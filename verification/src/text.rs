//! Text operations on character sequences.
use vstd::prelude::*;
use vstd::string::*;

verus! {

/// Characters with the Unicode `White_Space` property.
pub open spec fn white_space(c: char) -> bool {
    let n = c as u32;
    ||| 0x9 <= n <= 0xd
    ||| n == 0x20
    ||| n == 0x85
    ||| n == 0xa0
    ||| n == 0x1680
    ||| 0x2000 <= n <= 0x200a
    ||| n == 0x2028
    ||| n == 0x2029
    ||| n == 0x202f
    ||| n == 0x205f
    ||| n == 0x3000
}

/// ASCII letters and digits.
pub open spec fn ascii_alphanumeric(c: char) -> bool {
    let n = c as u32;
    ||| 0x30 <= n <= 0x39
    ||| 0x41 <= n <= 0x5a
    ||| 0x61 <= n <= 0x7a
}

/// The character with `A..=Z` moved to `a..=z`; every other character is kept.
pub open spec fn ascii_lower(c: char) -> char {
    if 0x41 <= c as u32 <= 0x5a {
        (c as u32 + 0x20) as char
    } else {
        c
    }
}

/// Equal text, letter case of ASCII letters aside.
pub open spec fn same_ignoring_ascii_case(a: Seq<char>, b: Seq<char>) -> bool {
    a.map_values(|c: char| ascii_lower(c)) == b.map_values(|c: char| ascii_lower(c))
}

/// `s` from its first character that is not white space.
pub open spec fn trimmed_start(s: Seq<char>) -> Seq<char>
    decreases s.len(),
{
    if s.len() > 0 && white_space(s.first()) {
        trimmed_start(s.drop_first())
    } else {
        s
    }
}

/// `s` up to its last character that is not white space.
pub open spec fn trimmed_end(s: Seq<char>) -> Seq<char>
    decreases s.len(),
{
    if s.len() > 0 && white_space(s.last()) {
        trimmed_end(s.drop_last())
    } else {
        s
    }
}

/// `s` without white space at either end.
pub open spec fn trimmed(s: Seq<char>) -> Seq<char> {
    trimmed_end(trimmed_start(s))
}

/// Decimal digits of `n`, without leading zeros.
pub open spec fn decimal(n: nat) -> Seq<char>
    decreases n,
{
    if n < 10 {
        seq!["0123456789"@[n as int]]
    } else {
        decimal(n / 10).push("0123456789"@[(n % 10) as int])
    }
}

/// The fields of `s` between occurrences of `separator`: one more than the
/// separators in it.
pub open spec fn fields(s: Seq<char>, separator: char) -> Seq<Seq<char>>
    decreases s.len(),
{
    if s.len() == 0 {
        seq![Seq::<char>::empty()]
    } else {
        let before = fields(s.drop_last(), separator);
        if s.last() == separator {
            before.push(Seq::empty())
        } else {
            before.drop_last().push(before.last().push(s.last()))
        }
    }
}

/// `parts` one behind another, with `separator` between neighbours.
pub open spec fn joined(parts: Seq<Seq<char>>, separator: char) -> Seq<char>
    decreases parts.len(),
{
    if parts.len() == 0 {
        Seq::empty()
    } else if parts.len() == 1 {
        parts[0]
    } else {
        joined(parts.drop_last(), separator).push(separator) + parts.last()
    }
}

/// Dictionary order by code point.
pub open spec fn text_le(a: Seq<char>, b: Seq<char>) -> bool
    decreases a.len(),
{
    if a.len() == 0 {
        true
    } else if b.len() == 0 {
        false
    } else if a.first() != b.first() {
        a.first() < b.first()
    } else {
        text_le(a.drop_first(), b.drop_first())
    }
}

/// Whether `c` is white space.
pub fn is_white_space(c: char) -> (r: bool)
    ensures
        r == white_space(c),
{
    let n: u32 = c as u32;
    (0x9 <= n && n <= 0xd) || n == 0x20 || n == 0x85 || n == 0xa0 || n == 0x1680 || (0x2000 <= n
        && n <= 0x200a) || n == 0x2028 || n == 0x2029 || n == 0x202f || n == 0x205f || n == 0x3000
}

/// Whether `c` is an ASCII letter or digit.
pub fn is_ascii_alphanumeric(c: char) -> (r: bool)
    ensures
        r == ascii_alphanumeric(c),
{
    let n: u32 = c as u32;
    (0x30 <= n && n <= 0x39) || (0x41 <= n && n <= 0x5a) || (0x61 <= n && n <= 0x7a)
}

/// The characters of `s`.
pub fn chars_of(s: &str) -> (r: Vec<char>)
    ensures
        r@ == s@,
{
    let mut r: Vec<char> = Vec::new();
    for c in it: s.chars()
        invariant
            it.seq() == s@,
            r@ == s@.take(it.index()),
    {
        r.push(c);
    }
    r
}

/// Whether two texts are equal.
pub fn same_text(a: &str, b: &str) -> (r: bool)
    ensures
        r == (a@ == b@),
{
    a.to_owned() == b.to_owned()
}

/// Whether two texts are equal, letter case of ASCII letters aside.
pub fn eq_ignore_ascii_case(a: &str, b: &str) -> (r: bool)
    ensures
        r == same_ignoring_ascii_case(a@, b@),
{
    let x = chars_of(a);
    let y = chars_of(b);
    let ghost low = |c: char| ascii_lower(c);
    if x.len() != y.len() {
        assert(a@.map_values(low).len() != b@.map_values(low).len());
        return false;
    }
    let mut i: usize = 0;
    while i < x.len()
        invariant
            x@ == a@,
            y@ == b@,
            x.len() == y.len(),
            i <= x.len(),
            forall|j: int| 0 <= j < i ==> ascii_lower(a@[j]) == ascii_lower(b@[j]),
        decreases x.len() - i,
    {
        let p: u32 = lower_code(x[i]);
        let q: u32 = lower_code(y[i]);
        if p != q {
            proof {
                let l = |c: char| ascii_lower(c);
                assert(a@.map_values(l)[i as int] == ascii_lower(a@[i as int]));
                assert(b@.map_values(l)[i as int] == ascii_lower(b@[i as int]));
            }
            return false;
        }
        i += 1;
    }
    assert(a@.map_values(low) =~= b@.map_values(low));
    true
}

/// Code point of `c` with an ASCII capital moved to lower case.
fn lower_code(c: char) -> (r: u32)
    ensures
        r == ascii_lower(c) as u32,
{
    let n: u32 = c as u32;
    if 0x41 <= n && n <= 0x5a {
        n + 0x20
    } else {
        n
    }
}

/// `s` without white space at either end.
pub fn trim<'a>(s: &'a str) -> (r: &'a str)
    ensures
        r@ == trimmed(s@),
{
    let chars = chars_of(s);
    let mut from: usize = 0;
    assert(s@.skip(0) =~= s@);
    while from < chars.len() && is_white_space(chars[from])
        invariant
            chars@ == s@,
            from <= chars.len(),
            trimmed_start(s@) == trimmed_start(s@.skip(from as int)),
        decreases chars.len() - from,
    {
        assert(s@.skip(from as int).drop_first() =~= s@.skip(from + 1));
        from += 1;
    }
    assert(trimmed_start(s@) =~= s@.skip(from as int));
    let mut to: usize = chars.len();
    assert(s@.subrange(from as int, to as int) =~= s@.skip(from as int));
    while to > from && is_white_space(chars[to - 1])
        invariant
            chars@ == s@,
            from <= to <= chars.len(),
            trimmed(s@) == trimmed_end(s@.subrange(from as int, to as int)),
        decreases to - from,
    {
        assert(s@.subrange(from as int, to as int).drop_last() =~= s@.subrange(
            from as int,
            to - 1,
        ));
        to -= 1;
    }
    s.substring_char(from, to)
}

/// `text` behind `prefix`, where it begins with it.
pub fn strip_prefix<'a>(text: &'a str, prefix: &str) -> (r: Option<&'a str>)
    ensures
        (match r {
            Some(rest) => prefix@.is_prefix_of(text@) && rest@ == text@.skip(prefix@.len() as int),
            None => !prefix@.is_prefix_of(text@),
        }),
{
    let len: usize = text.unicode_len();
    let cut: usize = prefix.unicode_len();
    if len < cut || !same_text(text.substring_char(0, cut), prefix) {
        return None;
    }
    let rest = text.substring_char(cut, len);
    assert(rest@ =~= text@.skip(cut as int));
    Some(rest)
}

/// Decimal digits of `n`, without leading zeros.
pub fn decimal_text(n: u32) -> (r: String)
    ensures
        r@ == decimal(n as nat),
    decreases n,
{
    proof {
        reveal_strlit("0123456789");
    }
    let d: usize = (n % 10) as usize;
    let digit = "0123456789".substring_char(d, d + 1);
    if n < 10 {
        assert(digit@ =~= decimal(n as nat));
        digit.to_owned()
    } else {
        let mut text = decimal_text(n / 10);
        text.append(digit);
        assert(text@ =~= decimal(n as nat));
        text
    }
}

/// Whether `a` stands no later than `b` in dictionary order.
pub fn is_text_le(a: &str, b: &str) -> (r: bool)
    ensures
        r == text_le(a@, b@),
{
    let x = chars_of(a);
    let y = chars_of(b);
    let mut i: usize = 0;
    assert(a@.skip(0) =~= a@ && b@.skip(0) =~= b@);
    while i < x.len() && i < y.len()
        invariant
            x@ == a@,
            y@ == b@,
            i <= x.len(),
            i <= y.len(),
            text_le(a@, b@) == text_le(a@.skip(i as int), b@.skip(i as int)),
        decreases x.len() - i,
    {
        if x[i] != y[i] {
            return x[i] < y[i];
        }
        assert(a@.skip(i as int).drop_first() =~= a@.skip(i + 1));
        assert(b@.skip(i as int).drop_first() =~= b@.skip(i + 1));
        i += 1;
    }
    i >= x.len()
}

/// A text stands no later than itself.
pub proof fn text_le_reflexive(a: Seq<char>)
    ensures
        text_le(a, a),
    decreases a.len(),
{
    if a.len() > 0 {
        text_le_reflexive(a.drop_first());
    }
}

/// Of two texts one stands no later than the other.
pub proof fn text_le_total(a: Seq<char>, b: Seq<char>)
    ensures
        text_le(a, b) || text_le(b, a),
    decreases a.len(),
{
    if a.len() > 0 && b.len() > 0 && a.first() == b.first() {
        text_le_total(a.drop_first(), b.drop_first());
    }
}

/// Texts of which each stands no later than the other are equal.
pub proof fn text_le_antisymmetric(a: Seq<char>, b: Seq<char>)
    requires
        text_le(a, b),
        text_le(b, a),
    ensures
        a == b,
    decreases a.len(),
{
    if a.len() > 0 && b.len() > 0 {
        text_le_antisymmetric(a.drop_first(), b.drop_first());
        assert(a =~= seq![a.first()] + a.drop_first());
        assert(b =~= seq![b.first()] + b.drop_first());
    } else {
        assert(a =~= b);
    }
}

/// Dictionary order is transitive.
pub proof fn text_le_transitive(a: Seq<char>, b: Seq<char>, c: Seq<char>)
    requires
        text_le(a, b),
        text_le(b, c),
    ensures
        text_le(a, c),
    decreases a.len(),
{
    if a.len() > 0 && b.len() > 0 && c.len() > 0 && a.first() == b.first() && b.first()
        == c.first() {
        text_le_transitive(a.drop_first(), b.drop_first(), c.drop_first());
    }
}

/// Text without separators extends the last field.
proof fn fields_of_extended(s: Seq<char>, more: Seq<char>, separator: char)
    requires
        !more.contains(separator),
    ensures
        fields(s, separator).len() > 0,
        fields(s + more, separator) == fields(s, separator).drop_last().push(
            fields(s, separator).last() + more,
        ),
    decreases more.len(),
{
    fields_are_some(s, separator);
    let before = fields(s, separator);
    if more.len() == 0 {
        assert(s + more =~= s);
        assert(before.last() + more =~= before.last());
        assert(before =~= before.drop_last().push(before.last()));
    } else {
        let earlier = more.drop_last();
        assert forall|c: char| earlier.contains(c) implies more.contains(c) by {
            let i = choose|i: int| 0 <= i < earlier.len() && earlier[i] == c;
            assert(more[i] == c);
        }
        fields_of_extended(s, earlier, separator);
        assert((s + more).drop_last() =~= s + earlier);
        assert(more.contains(more.last()));
        let middle = fields(s + earlier, separator);
        assert(middle.last() == before.last() + earlier);
        assert(middle.drop_last() =~= before.drop_last());
        assert((before.last() + earlier).push(more.last()) =~= before.last() + more);
    }
}

/// A text has a field.
proof fn fields_are_some(s: Seq<char>, separator: char)
    ensures
        fields(s, separator).len() > 0,
    decreases s.len(),
{
    if s.len() > 0 {
        fields_are_some(s.drop_last(), separator);
    }
}

/// Splitting undoes joining, where the parts hold no separator and there is one.
pub proof fn fields_of_joined(parts: Seq<Seq<char>>, separator: char)
    requires
        parts.len() > 0,
        forall|i: int| 0 <= i < parts.len() ==> !(#[trigger] parts[i]).contains(separator),
    ensures
        fields(joined(parts, separator), separator) == parts,
    decreases parts.len(),
{
    if parts.len() == 1 {
        fields_of_extended(Seq::empty(), parts[0], separator);
        assert(Seq::<char>::empty() + parts[0] =~= parts[0]);
        assert(fields(parts[0], separator) =~= parts);
    } else {
        let earlier = parts.drop_last();
        assert forall|i: int| 0 <= i < earlier.len() implies !(#[trigger] earlier[i]).contains(
            separator,
        ) by {
            assert(!parts[i].contains(separator));
        }
        fields_of_joined(earlier, separator);
        let head = joined(earlier, separator);
        assert(head.push(separator).drop_last() =~= head);
        assert(fields(head.push(separator), separator) == earlier.push(Seq::empty()));
        assert(!parts[parts.len() - 1].contains(separator));
        fields_of_extended(head.push(separator), parts.last(), separator);
        assert(earlier.push(Seq::empty()).drop_last() =~= earlier);
        assert(Seq::<char>::empty() + parts.last() =~= parts.last());
        assert(earlier.push(parts.last()) =~= parts);
    }
}

/// White space are the 25 characters that Unicode gives the `White_Space` property, and
/// no other.
pub proof fn white_space_is_listed(c: char)
    ensures
        white_space(c) <==> seq![
            0x9u32, 0xa, 0xb, 0xc, 0xd, 0x20, 0x85, 0xa0, 0x1680, 0x2000, 0x2001, 0x2002, 0x2003,
            0x2004, 0x2005, 0x2006, 0x2007, 0x2008, 0x2009, 0x200a, 0x2028, 0x2029, 0x202f, 0x205f,
            0x3000,
        ].contains(c as u32),
{
    let listed = seq![
        0x9u32, 0xa, 0xb, 0xc, 0xd, 0x20, 0x85, 0xa0, 0x1680, 0x2000, 0x2001, 0x2002, 0x2003,
        0x2004, 0x2005, 0x2006, 0x2007, 0x2008, 0x2009, 0x200a, 0x2028, 0x2029, 0x202f, 0x205f,
        0x3000,
    ];
    let n = c as u32;
    if white_space(c) {
        let i = if n <= 0xd {
            n - 9
        } else if n == 0x20 {
            5
        } else if n == 0x85 {
            6
        } else if n == 0xa0 {
            7
        } else if n == 0x1680 {
            8
        } else if n <= 0x200a {
            9 + (n - 0x2000)
        } else if n == 0x2028 {
            20
        } else if n == 0x2029 {
            21
        } else if n == 0x202f {
            22
        } else if n == 0x205f {
            23
        } else {
            24
        };
        assert(listed[i] == n);
    }
}

/// ASCII letters and digits are those from `0` to `9`, from `A` to `Z` and from `a` to
/// `z`.
pub proof fn ascii_alphanumeric_are_letters_and_digits(c: char)
    ensures
        ascii_alphanumeric(c) <==> '0' <= c <= '9' || 'A' <= c <= 'Z' || 'a' <= c <= 'z',
{
}

/// Texts are equal, letter case aside, where they are as long as each other and differ
/// at most between a capital and the same small letter.
pub proof fn letter_case_is_all_that_is_ignored(a: Seq<char>, b: Seq<char>)
    ensures
        same_ignoring_ascii_case(a, b) <==> a.len() == b.len() && forall|i: int|
            0 <= i < a.len() ==> {
                ||| #[trigger] a[i] == b[i]
                ||| 'A' <= a[i] <= 'Z' && b[i] as u32 == a[i] as u32 + 32
                ||| 'A' <= b[i] <= 'Z' && a[i] as u32 == b[i] as u32 + 32
            },
{
    let low = |c: char| ascii_lower(c);
    let x = a.map_values(low);
    let y = b.map_values(low);
    if same_ignoring_ascii_case(a, b) {
        assert(x.len() == y.len());
        assert forall|i: int| 0 <= i < a.len() implies {
            ||| #[trigger] a[i] == b[i]
            ||| 'A' <= a[i] <= 'Z' && b[i] as u32 == a[i] as u32 + 32
            ||| 'A' <= b[i] <= 'Z' && a[i] as u32 == b[i] as u32 + 32
        } by {
            assert(x[i] == y[i]);
            lower_letters_match(a[i], b[i]);
        }
    }
    if a.len() == b.len() && forall|i: int|
        0 <= i < a.len() ==> {
            ||| #[trigger] a[i] == b[i]
            ||| 'A' <= a[i] <= 'Z' && b[i] as u32 == a[i] as u32 + 32
            ||| 'A' <= b[i] <= 'Z' && a[i] as u32 == b[i] as u32 + 32
        } {
        assert forall|i: int| 0 <= i < x.len() implies x[i] == y[i] by {
            lower_letters_match(a[i], b[i]);
        }
        assert(x =~= y);
    }
}

proof fn lower_letters_match(p: char, q: char)
    ensures
        ascii_lower(p) == ascii_lower(q) <==> {
            ||| p == q
            ||| 'A' <= p <= 'Z' && q as u32 == p as u32 + 32
            ||| 'A' <= q <= 'Z' && p as u32 == q as u32 + 32
        },
{
}

/// Whether a text is white space throughout.
pub open spec fn is_blank(s: Seq<char>) -> bool {
    forall|i: int| 0 <= i < s.len() ==> white_space(#[trigger] s[i])
}

/// Trimming takes the white space off both ends and nothing else: what surrounds a text
/// that neither begins nor ends with white space is gone, and the text is left; a text
/// of white space alone leaves nothing.
pub proof fn trimming_takes_surrounding_white_space(
    before: Seq<char>,
    text: Seq<char>,
    behind: Seq<char>,
)
    requires
        is_blank(before),
        is_blank(behind),
        text.len() > 0 ==> !white_space(text.first()) && !white_space(text.last()),
    ensures
        trimmed(before + text + behind) == text,
{
    trimmed_start_takes(before, text + behind);
    assert(before + text + behind =~= before + (text + behind));
    if text.len() > 0 {
        assert((text + behind).first() == text.first());
        assert(trimmed_start(text + behind) == text + behind);
        trimmed_end_takes(text, behind);
        assert(trimmed_end(text) == text);
    } else {
        assert(text + behind =~= behind + text);
        trimmed_start_takes(behind, text);
        assert(trimmed_start(text) =~= text);
        assert(trimmed_end(text) =~= text);
    }
}

proof fn trimmed_start_takes(before: Seq<char>, s: Seq<char>)
    requires
        is_blank(before),
    ensures
        trimmed_start(before + s) == trimmed_start(s),
    decreases before.len(),
{
    if before.len() == 0 {
        assert(before + s =~= s);
    } else {
        let rest = before.drop_first();
        assert forall|i: int| 0 <= i < rest.len() implies white_space(#[trigger] rest[i]) by {
            assert(rest[i] == before[i + 1]);
        }
        assert(white_space(before[0]));
        assert((before + s).drop_first() =~= rest + s);
        trimmed_start_takes(rest, s);
    }
}

proof fn trimmed_end_takes(s: Seq<char>, behind: Seq<char>)
    requires
        is_blank(behind),
    ensures
        trimmed_end(s + behind) == trimmed_end(s),
    decreases behind.len(),
{
    if behind.len() == 0 {
        assert(s + behind =~= s);
    } else {
        let rest = behind.drop_last();
        assert forall|i: int| 0 <= i < rest.len() implies white_space(#[trigger] rest[i]) by {
            assert(rest[i] == behind[i]);
        }
        assert(white_space(behind[behind.len() - 1]));
        assert((s + behind).drop_last() =~= s + rest);
        trimmed_end_takes(s, rest);
    }
}

/// What trimming leaves neither begins nor ends with white space, and stands in the text
/// between white space.
pub proof fn trimmed_text_stands_between_white_space(s: Seq<char>)
    ensures
        trimmed(s).len() > 0 ==> !white_space(trimmed(s).first()) && !white_space(
            trimmed(s).last(),
        ),
        exists|from: int|
            {
                &&& 0 <= from <= from + trimmed(s).len() <= s.len()
                &&& s.subrange(from, from + trimmed(s).len()) == trimmed(s)
                &&& is_blank(#[trigger] s.take(from))
                &&& is_blank(s.skip(from + trimmed(s).len()))
            },
{
    let t = trimmed_start(s);
    let from = s.len() - t.len();
    trimmed_start_is_suffix(s);
    trimmed_end_is_prefix(t);
    let r = trimmed(s);
    assert(r == t.take(r.len() as int));
    assert(s.subrange(from, from + r.len()) =~= r);
    assert(s.skip(from + r.len()) =~= t.skip(r.len() as int));
    if r.len() > 0 {
        assert(r.first() == t.first());
    }
    assert(is_blank(s.take(from)));
}

proof fn trimmed_start_is_suffix(s: Seq<char>)
    ensures
        trimmed_start(s).len() <= s.len(),
        trimmed_start(s) == s.skip(s.len() - trimmed_start(s).len()),
        is_blank(s.take(s.len() - trimmed_start(s).len())),
        trimmed_start(s).len() > 0 ==> !white_space(trimmed_start(s).first()),
    decreases s.len(),
{
    if s.len() > 0 && white_space(s.first()) {
        let rest = s.drop_first();
        trimmed_start_is_suffix(rest);
        let n = s.len() - trimmed_start(s).len();
        assert(s.skip(n) =~= rest.skip(n - 1));
        assert forall|i: int| 0 <= i < n implies white_space(#[trigger] s.take(n)[i]) by {
            if i > 0 {
                assert(rest.take(n - 1)[i - 1] == s[i]);
            }
        }
    } else {
        assert(s.skip(0) =~= s);
    }
}

proof fn trimmed_end_is_prefix(s: Seq<char>)
    ensures
        trimmed_end(s).len() <= s.len(),
        trimmed_end(s) == s.take(trimmed_end(s).len() as int),
        is_blank(s.skip(trimmed_end(s).len() as int)),
        trimmed_end(s).len() > 0 ==> !white_space(trimmed_end(s).last()),
    decreases s.len(),
{
    if s.len() > 0 && white_space(s.last()) {
        let rest = s.drop_last();
        trimmed_end_is_prefix(rest);
        let n = trimmed_end(s).len() as int;
        assert(s.take(n) =~= rest.take(n));
        assert forall|i: int| 0 <= i < s.len() - n implies white_space(#[trigger] s.skip(n)[i]) by {
            if i < rest.len() - n {
                assert(rest.skip(n)[i] == s[n + i]);
            }
        }
    } else {
        assert(s.take(s.len() as int) =~= s);
    }
}

/// The number that decimal digits stand for.
pub open spec fn number_of(digits: Seq<char>) -> int
    decreases digits.len(),
{
    if digits.len() == 0 {
        0
    } else {
        10 * number_of(digits.drop_last()) + (digits.last() as u32 - '0' as u32)
    }
}

/// The decimal text of a number reads back as the number, is made of digits, and has no
/// leading zero but that of zero itself.
pub proof fn decimal_reads_back(n: nat)
    ensures
        number_of(decimal(n)) == n,
        decimal(n).len() > 0,
        forall|i: int| 0 <= i < decimal(n).len() ==> '0' <= #[trigger] decimal(n)[i] <= '9',
        n > 0 ==> decimal(n)[0] != '0',
        n == 0 ==> decimal(n).len() == 1,
    decreases n,
{
    reveal_strlit("0123456789");
    let digit = "0123456789"@[(n % 10) as int];
    assert(digit as u32 == '0' as u32 + n % 10);
    if n < 10 {
        reveal_with_fuel(number_of, 2);
        assert(decimal(n).drop_last() =~= Seq::<char>::empty());
    } else {
        decimal_reads_back(n / 10);
        assert(decimal(n).drop_last() =~= decimal(n / 10));
        assert forall|i: int| 0 <= i < decimal(n).len() implies '0' <= #[trigger] decimal(n)[i]
            <= '9' by {
            if i < decimal(n / 10).len() {
                assert(decimal(n)[i] == decimal(n / 10)[i]);
            }
        }
    }
}

/// Joining goes part by part, with one separator between neighbours; a single part is
/// left as it is.
pub proof fn joining_puts_separators_between(
    first: Seq<Seq<char>>,
    second: Seq<Seq<char>>,
    part: Seq<char>,
    separator: char,
)
    requires
        first.len() > 0,
        second.len() > 0,
    ensures
        joined(first + second, separator) == joined(first, separator) + seq![separator] + joined(
            second,
            separator,
        ),
        joined(seq![part], separator) == part,
        joined(Seq::empty(), separator) == Seq::<char>::empty(),
    decreases second.len(),
{
    let both = first + second;
    if second.len() == 1 {
        assert(both.drop_last() =~= first);
        assert(joined(both, separator) =~= joined(first, separator) + seq![separator] + joined(
            second,
            separator,
        ));
    } else {
        joining_puts_separators_between(first, second.drop_last(), part, separator);
        assert(both.drop_last() =~= first + second.drop_last());
        assert(joined(both, separator) =~= joined(first, separator) + seq![separator] + joined(
            second,
            separator,
        ));
    }
}

/// Joining undoes splitting, and no field holds the separator.
pub proof fn joined_fields_are_the_text(s: Seq<char>, separator: char)
    ensures
        joined(fields(s, separator), separator) == s,
        fields(s, separator).len() > 0,
        forall|i: int|
            0 <= i < fields(s, separator).len() ==> !(#[trigger] fields(s, separator)[i]).contains(
                separator,
            ),
    decreases s.len(),
{
    let all = fields(s, separator);
    fields_are_some(s, separator);
    if s.len() == 0 {
        assert(joined(all, separator) =~= s);
    } else {
        let rest = s.drop_last();
        let before = fields(rest, separator);
        joined_fields_are_the_text(rest, separator);
        fields_are_some(rest, separator);
        if s.last() == separator {
            assert(all.drop_last() =~= before);
            assert(joined(all, separator) =~= s);
        } else {
            assert(all.drop_last() =~= before.drop_last());
            assert(joined(all, separator) =~= joined(before, separator).push(s.last()));
            assert(joined(all, separator) =~= s);
            assert(!before[before.len() - 1].contains(separator));
            let last = all[all.len() - 1];
            assert(last == before.last().push(s.last()));
            if last.contains(separator) {
                let j = choose|j: int| 0 <= j < last.len() && last[j] == separator;
                assert(before.last()[j] == separator);
            }
        }
        assert forall|i: int| 0 <= i < all.len() implies !(#[trigger] all[i]).contains(
            separator,
        ) by {
            if i < before.len() - 1 {
                assert(all[i] == before[i]);
            } else if i == before.len() - 1 && s.last() == separator {
                assert(all[i] == before[i]);
            }
        }
    }
}

/// Dictionary order goes by the first characters that differ, the one with the lower
/// code point first; a text comes before every longer one that it begins.
pub proof fn dictionary_order_goes_by_first_difference(
    common: Seq<char>,
    low: char,
    high: char,
    a: Seq<char>,
    b: Seq<char>,
)
    requires
        low < high,
    ensures
        text_le(common + seq![low] + a, common + seq![high] + b),
        !text_le(common + seq![high] + b, common + seq![low] + a),
        text_le(common, common + a),
        a.len() > 0 ==> !text_le(common + a, common),
    decreases common.len(),
{
    let x = common + seq![low] + a;
    let y = common + seq![high] + b;
    if common.len() > 0 {
        let rest = common.drop_first();
        dictionary_order_goes_by_first_difference(rest, low, high, a, b);
        assert(x.drop_first() =~= rest + seq![low] + a);
        assert(y.drop_first() =~= rest + seq![high] + b);
        assert((common + a).drop_first() =~= rest + a);
        assert(x.first() == common[0] && y.first() == common[0] && (common + a).first()
            == common[0]);
    } else {
        assert(x.first() == low && y.first() == high);
    }
}

} // verus!
