//! The text form of the structured-text backend: one JSON object whose
//! property values are all strings. Writing produces a compact canonical
//! form; reading accepts whitespace between tokens and every JSON string
//! escape, and gives back exactly the pairs that were written.
use vstd::prelude::*;
use crate::keyed::{lemma_last_index_at, upsert};
use crate::setting::SettingModel;
use crate::store::{opened, InfoModel};
use crate::text::push_char;

verus! {

/// Lower-case hexadecimal digit for a value below sixteen.
pub open spec fn hex_char(d: nat) -> char {
    if d < 10 {
        (('0' as u32) + d) as char
    } else {
        (('a' as u32) + d - 10) as char
    }
}

/// A character as it stands inside a JSON string: `"` and `\` escaped with
/// a backslash, control characters as `\u00XX`, all others as themselves.
pub open spec fn escape_char(c: char) -> Seq<char> {
    if c == '"' {
        seq!['\\', '"']
    } else if c == '\\' {
        seq!['\\', '\\']
    } else if (c as u32) < 32 {
        seq!['\\', 'u', '0', '0', hex_char((c as u32) as nat / 16), hex_char((c as u32) as nat % 16)]
    } else {
        seq![c]
    }
}

pub open spec fn escaped(s: Seq<char>) -> Seq<char>
    decreases s.len(),
{
    if s.len() == 0 {
        Seq::empty()
    } else {
        escaped(s.drop_last()) + escape_char(s.last())
    }
}

/// A JSON string literal holding `s`.
pub open spec fn quoted(s: Seq<char>) -> Seq<char> {
    seq!['"'] + escaped(s) + seq!['"']
}

pub open spec fn entry_text(p: (Seq<char>, Seq<char>)) -> Seq<char> {
    quoted(p.0) + seq![':'] + quoted(p.1)
}

/// The members of the object, separated by commas.
pub open spec fn entries_text(ps: Seq<(Seq<char>, Seq<char>)>) -> Seq<char>
    decreases ps.len(),
{
    if ps.len() == 0 {
        Seq::empty()
    } else if ps.len() == 1 {
        entry_text(ps[0])
    } else {
        entries_text(ps.drop_last()) + seq![','] + entry_text(ps.last())
    }
}

/// The canonical document for `ps`, members in order.
pub open spec fn document_text(ps: Seq<(Seq<char>, Seq<char>)>) -> Seq<char> {
    seq!['{'] + entries_text(ps) + seq!['}']
}

pub open spec fn pairs_view(v: Seq<(String, String)>) -> Seq<(Seq<char>, Seq<char>)> {
    v.map_values(|p: (String, String)| (p.0@, p.1@))
}

fn hex_char_of(d: u32) -> (c: char)
    requires
        d < 16,
    ensures
        c == hex_char(d as nat),
{
    if d == 0 { '0' }
    else if d == 1 { '1' }
    else if d == 2 { '2' }
    else if d == 3 { '3' }
    else if d == 4 { '4' }
    else if d == 5 { '5' }
    else if d == 6 { '6' }
    else if d == 7 { '7' }
    else if d == 8 { '8' }
    else if d == 9 { '9' }
    else if d == 10 { 'a' }
    else if d == 11 { 'b' }
    else if d == 12 { 'c' }
    else if d == 13 { 'd' }
    else if d == 14 { 'e' }
    else { 'f' }
}

fn push_quoted(out: &mut String, s: &String)
    ensures
        final(out)@ == old(out)@ + quoted(s@),
{
    let cs = crate::text::chars_of(s.as_str());
    let ghost start = old(out)@;
    push_char(out, '"');
    let mut i: usize = 0;
    assert(cs@.subrange(0, 0) =~= Seq::<char>::empty());
    assert(out@ =~= start + seq!['"'] + escaped(cs@.subrange(0, 0)));
    while i < cs.len()
        invariant
            i <= cs@.len(),
            out@ == start + seq!['"'] + escaped(cs@.subrange(0, i as int)),
        decreases cs@.len() - i,
    {
        let c = cs[i];
        assert(cs@.subrange(0, i + 1).drop_last() =~= cs@.subrange(0, i as int));
        let ghost before = out@;
        if c == '"' {
            push_char(out, '\\');
            push_char(out, '"');
        } else if c == '\\' {
            push_char(out, '\\');
            push_char(out, '\\');
        } else if (c as u32) < 32 {
            push_char(out, '\\');
            push_char(out, 'u');
            push_char(out, '0');
            push_char(out, '0');
            push_char(out, hex_char_of((c as u32) / 16));
            push_char(out, hex_char_of((c as u32) % 16));
        } else {
            push_char(out, c);
        }
        assert(out@ =~= before + escape_char(c));
        i += 1;
        assert(out@ =~= start + seq!['"'] + escaped(cs@.subrange(0, i as int)));
    }
    assert(cs@.subrange(0, i as int) =~= s@);
    push_char(out, '"');
    assert(out@ =~= start + quoted(s@));
}

/// Writes the canonical document for `pairs`.
pub fn encode_document(pairs: &Vec<(String, String)>) -> (r: String)
    ensures
        r@ == document_text(pairs_view(pairs@)),
{
    let ghost ps = pairs_view(pairs@);
    let mut out = String::new();
    push_char(&mut out, '{');
    let mut i: usize = 0;
    assert(entries_text(ps.subrange(0, 0)) =~= Seq::<char>::empty());
    while i < pairs.len()
        invariant
            i <= pairs@.len(),
            ps == pairs_view(pairs@),
            out@ == seq!['{'] + entries_text(ps.subrange(0, i as int)),
        decreases pairs@.len() - i,
    {
        let ghost before = out@;
        assert(ps.subrange(0, i + 1).drop_last() =~= ps.subrange(0, i as int));
        if i > 0 {
            push_char(&mut out, ',');
        }
        push_quoted(&mut out, &pairs[i].0);
        push_char(&mut out, ':');
        push_quoted(&mut out, &pairs[i].1);
        assert(ps[i as int] == (pairs@[i as int].0@, pairs@[i as int].1@));
        if i == 0 {
            assert(out@ =~= seq!['{'] + entries_text(ps.subrange(0, 1)));
        } else {
            assert(out@ =~= seq!['{'] + entries_text(ps.subrange(0, i + 1)));
        }
        i += 1;
    }
    assert(ps.subrange(0, i as int) =~= ps);
    push_char(&mut out, '}');
    assert(out@ =~= document_text(ps));
    out
}

/// Writes `raw` for `key` into the pairs of a document: the pair for `key`
/// is replaced in place, or appended when there is none.
pub fn put_pair(pairs: &mut Vec<(String, String)>, key: String, raw: String)
    ensures
        pairs_view(final(pairs)@) == upsert(pairs_view(old(pairs)@), key@, raw@),
{
    let ghost ps = pairs_view(pairs@);
    let mut i: usize = pairs.len();
    while i > 0
        invariant
            i <= pairs@.len(),
            ps == pairs_view(pairs@),
            ps == pairs_view(old(pairs)@),
            forall|j: int| i <= j < ps.len() ==> ps[j].0 != key@,
        decreases i,
    {
        assert(ps[i - 1].0 == pairs@[i - 1].0@);
        if pairs[i - 1].0 == key {
            proof {
                lemma_last_index_at(ps, key@, i - 1);
            }
            let ghost k = key@;
            let ghost r = raw@;
            pairs.set(i - 1, (key, raw));
            assert(pairs_view(pairs@) =~= ps.update(i - 1, (k, r)));
            return;
        }
        i -= 1;
    }
    proof {
        lemma_last_index_at(ps, key@, -1);
    }
    let ghost k = key@;
    let ghost r = raw@;
    pairs.push((key, raw));
    assert(pairs_view(pairs@) =~= ps.push((k, r)));
}

/// The value of a hexadecimal digit, either case.
pub open spec fn hex_digit_value(c: char) -> Option<nat> {
    if '0' <= c && c <= '9' {
        Some(((c as u32) - ('0' as u32)) as nat)
    } else if 'a' <= c && c <= 'f' {
        Some(((c as u32) - ('a' as u32) + 10) as nat)
    } else if 'A' <= c && c <= 'F' {
        Some(((c as u32) - ('A' as u32) + 10) as nat)
    } else {
        None
    }
}

/// The value of the four hexadecimal digits at `at`.
pub open spec fn hex4_value(cs: Seq<char>, at: int) -> Option<nat> {
    match (
        hex_digit_value(cs[at]),
        hex_digit_value(cs[at + 1]),
        hex_digit_value(cs[at + 2]),
        hex_digit_value(cs[at + 3]),
    ) {
        (Some(a), Some(b), Some(c), Some(d)) => Some(a * 4096 + b * 256 + c * 16 + d),
        _ => None,
    }
}

/// The character of a string literal at `i` and the position after it: a
/// plain character (not `"`, `\\` or a control character), a one-letter
/// escape, a `\\uXXXX` escape outside the surrogates, or a pair of
/// `\\uXXXX` escapes of a high and a low surrogate.
pub open spec fn unit_at(cs: Seq<char>, i: int) -> Option<(char, int)> {
    if !(0 <= i < cs.len()) {
        None
    } else if cs[i] == '\\' {
        if i + 1 >= cs.len() {
            None
        } else {
            let k = cs[i + 1];
            if k == '"' {
                Some(('"', i + 2))
            } else if k == '\\' {
                Some(('\\', i + 2))
            } else if k == '/' {
                Some(('/', i + 2))
            } else if k == 'b' {
                Some(('\u{8}', i + 2))
            } else if k == 'f' {
                Some(('\u{c}', i + 2))
            } else if k == 'n' {
                Some(('\n', i + 2))
            } else if k == 'r' {
                Some(('\r', i + 2))
            } else if k == 't' {
                Some(('\t', i + 2))
            } else if k == 'u' && cs.len() - i >= 6 {
                match hex4_value(cs, i + 2) {
                    Some(v) => if v < 0xD800 || v >= 0xE000 {
                        Some(((v as u32) as char, i + 6))
                    } else if v < 0xDC00 && cs.len() - i >= 12 && cs[i + 6] == '\\' && cs[i + 7]
                        == 'u' {
                        match hex4_value(cs, i + 8) {
                            Some(w) => if 0xDC00 <= w && w < 0xE000 {
                                Some(
                                    (
                                        ((0x10000 + (v - 0xD800) * 1024 + (w - 0xDC00)) as u32) as char,
                                        i + 12,
                                    ),
                                )
                            } else {
                                None
                            },
                            None => None,
                        }
                    } else {
                        None
                    },
                    None => None,
                }
            } else {
                None
            }
        }
    } else if (cs[i] as u32) < 32 {
        None
    } else {
        Some((cs[i], i + 1))
    }
}

/// The rest of a string literal from `i` on, `acc` read so far: the string
/// and the position after the closing quote.
pub open spec fn string_rest(cs: Seq<char>, i: int, acc: Seq<char>) -> Option<(Seq<char>, int)>
    decreases cs.len() - i,
{
    if !(0 <= i < cs.len()) {
        None
    } else if cs[i] == '"' {
        Some((acc, i + 1))
    } else {
        match unit_at(cs, i) {
            Some((c, j)) => if i < j <= cs.len() {
                string_rest(cs, j, acc.push(c))
            } else {
                None
            },
            None => None,
        }
    }
}

/// The string literal at `pos`: its string and the position after it.
pub open spec fn literal_at(cs: Seq<char>, pos: int) -> Option<(Seq<char>, int)> {
    if 0 <= pos < cs.len() && cs[pos] == '"' {
        string_rest(cs, pos + 1, Seq::empty())
    } else {
        None
    }
}

pub open spec fn is_space_char(c: char) -> bool {
    c == ' ' || c == '\t' || c == '\n' || c == '\r'
}

/// The first position at or after `i` that holds no whitespace.
pub open spec fn skip_ws(cs: Seq<char>, i: int) -> int
    decreases cs.len() - i,
{
    if 0 <= i < cs.len() && is_space_char(cs[i]) {
        skip_ws(cs, i + 1)
    } else {
        i
    }
}

/// The members from `pos` on, `acc` read so far, up to the closing brace
/// and the whitespace that ends the text.
pub open spec fn members_rest(
    cs: Seq<char>,
    pos: int,
    acc: Seq<(Seq<char>, Seq<char>)>,
) -> Option<Seq<(Seq<char>, Seq<char>)>>
    decreases cs.len() - pos,
{
    match literal_at(cs, pos) {
        None => None,
        Some((k, key_end)) => {
            let colon = skip_ws(cs, key_end);
            if !(0 <= colon < cs.len() && cs[colon] == ':') {
                None
            } else {
                match literal_at(cs, skip_ws(cs, colon + 1)) {
                    None => None,
                    Some((v, value_end)) => {
                        let after = skip_ws(cs, value_end);
                        if 0 <= after < cs.len() && cs[after] == ',' {
                            let next = skip_ws(cs, after + 1);
                            if pos < next <= cs.len() {
                                members_rest(cs, next, acc.push((k, v)))
                            } else {
                                None
                            }
                        } else if 0 <= after < cs.len() && cs[after] == '}' && skip_ws(cs, after + 1)
                            == cs.len() {
                            Some(acc.push((k, v)))
                        } else {
                            None
                        }
                    },
                }
            }
        },
    }
}

/// The pairs of a document: whitespace, `{`, members `"key":"value"`
/// separated by commas, `}`, whitespace, with whitespace allowed between
/// tokens; `None` for any other text.
pub open spec fn parse_document(cs: Seq<char>) -> Option<Seq<(Seq<char>, Seq<char>)>> {
    let open = skip_ws(cs, 0);
    if !(open < cs.len() && cs[open] == '{') {
        None
    } else {
        let first = skip_ws(cs, open + 1);
        if first < cs.len() && cs[first] == '}' {
            if skip_ws(cs, first + 1) == cs.len() {
                Some(Seq::empty())
            } else {
                None
            }
        } else {
            members_rest(cs, first, Seq::empty())
        }
    }
}

/// Why a document could not be read.
#[derive(Clone, Copy, Debug, PartialEq, Eq, Structural)]
pub enum DocumentError {
    /// The text is not a single JSON object whose values are all strings.
    NotAnObjectOfStrings,
}

/// `t` stands in `cs` from `pos` on.
pub open spec fn text_at(cs: Seq<char>, pos: int, t: Seq<char>) -> bool {
    0 <= pos && pos + t.len() <= cs.len() && cs.subrange(pos, pos + t.len()) == t
}

pub proof fn lemma_escaped_split(s: Seq<char>, k: int)
    requires
        0 <= k <= s.len(),
    ensures
        escaped(s) == escaped(s.subrange(0, k)) + escaped(s.subrange(k, s.len() as int)),
    decreases s.len(),
{
    if k == s.len() {
        assert(s.subrange(0, k) =~= s);
        assert(s.subrange(k, s.len() as int) =~= Seq::<char>::empty());
        assert(escaped(s) + Seq::<char>::empty() =~= escaped(s));
    } else {
        lemma_escaped_split(s.drop_last(), k);
        assert(s.drop_last().subrange(0, k) =~= s.subrange(0, k));
        assert(s.subrange(k, s.len() as int).drop_last() =~= s.drop_last().subrange(
            k,
            s.drop_last().len() as int,
        ));
        assert(escaped(s) =~= escaped(s.subrange(0, k)) + escaped(s.subrange(k, s.len() as int)));
    }
}

/// Inside the string literal for `e` at `pos`, after the escaped first `m`
/// characters, stands the escape of character `m`, or the closing quote.
proof fn lemma_quoted_at(cs: Seq<char>, pos: int, e: Seq<char>, m: int)
    requires
        text_at(cs, pos, quoted(e)),
        0 <= m <= e.len(),
    ensures
        quoted(e).len() == escaped(e).len() + 2,
        m < e.len() ==> text_at(cs, pos + 1 + escaped(e.subrange(0, m)).len(), escape_char(e[m])),
        m == e.len() ==> pos + 1 + escaped(e).len() < cs.len() && cs[pos + 1 + escaped(e).len()]
            == '"',
        escaped(e.subrange(0, m)).len() <= escaped(e).len(),
{
    lemma_escaped_split(e, m);
    let q = quoted(e);
    let base = pos + 1 + escaped(e.subrange(0, m)).len();
    if m < e.len() {
        let rest = e.subrange(m, e.len() as int);
        lemma_escaped_split(rest, 1);
        assert(rest.subrange(0, 1).drop_last() =~= Seq::<char>::empty());
        assert(escaped(Seq::<char>::empty()) == Seq::<char>::empty());
        assert(rest.subrange(0, 1).last() == e[m]);
        assert(escaped(rest.subrange(0, 1)) =~= escape_char(e[m]));
        let t = escape_char(e[m]);
        assert forall|k: int| 0 <= k < t.len() implies cs.subrange(base, base + t.len())[k]
            == t[k] by {
            assert(cs.subrange(pos, pos + q.len())[base - pos + k] == q[base - pos + k]);
            assert(q[base - pos + k] == escaped(rest)[k]);
        }
        assert(cs.subrange(base, base + t.len()) =~= t);
    } else {
        assert(cs.subrange(pos, pos + q.len())[q.len() - 1] == q[q.len() - 1]);
    }
}

/// Relies on `char::from_u32`: the character with the given scalar value,
/// which exists for every value below `0xD800` and from `0xE000` to
/// `0x10FFFF`.
#[verifier::external_body]
fn char_from_u32(v: u32) -> (r: Option<char>)
    ensures
        r matches Some(c) ==> c as u32 == v,
        (v < 0xD800 || (0xE000 <= v && v <= 0x10FFFF)) ==> r is Some,
{
    char::from_u32(v)
}

/// The value of a hexadecimal digit, either case.
fn hex_value(c: char) -> (r: Option<u32>)
    ensures
        match r {
            Some(d) => hex_digit_value(c) == Some(d as nat),
            None => hex_digit_value(c) is None,
        },
        r matches Some(d) ==> d < 16,
        forall|d: nat| d < 16 && c == hex_char(d) ==> r == Some(d as u32),
{
    if '0' <= c && c <= '9' {
        Some((c as u32) - ('0' as u32))
    } else if 'a' <= c && c <= 'f' {
        Some((c as u32) - ('a' as u32) + 10)
    } else if 'A' <= c && c <= 'F' {
        Some((c as u32) - ('A' as u32) + 10)
    } else {
        None
    }
}

/// Four hexadecimal digits at `at`.
fn read_hex4(cs: &Vec<char>, at: usize) -> (r: Option<u32>)
    requires
        at + 4 <= cs@.len(),
    ensures
        match r {
            Some(v) => hex4_value(cs@, at as int) == Some(v as nat),
            None => hex4_value(cs@, at as int) is None,
        },
        r matches Some(v) ==> v < 65536,
        forall|a: nat, b: nat|
            #![trigger hex_char(a), hex_char(b)]
            a < 16 && b < 16 && cs@[at as int] == '0' && cs@[at + 1] == '0' && cs@[at + 2]
                == hex_char(a) && cs@[at + 3] == hex_char(b) ==> r == Some((a * 16 + b) as u32),
{
    let n = cs.len();
    let h0 = hex_value(cs[at]);
    let h1 = hex_value(cs[at + 1]);
    let h2 = hex_value(cs[at + 2]);
    let h3 = hex_value(cs[at + 3]);
    assert(hex_char(0) == '0');
    match (h0, h1, h2, h3) {
        (Some(a), Some(b), Some(c), Some(d)) => Some(a * 4096 + b * 256 + c * 16 + d),
        _ => None,
    }
}

/// What standing at `i` tells of the characters there, for the escape of `c`.
proof fn lemma_escape_at(cs: Seq<char>, i: int, c: char)
    requires
        text_at(cs, i, escape_char(c)),
    ensures
        cs[i] == escape_char(c)[0],
        escape_char(c).len() <= cs.len() - i,
        escape_char(c).len() > 1 ==> cs[i + 1] == escape_char(c)[1],
        escape_char(c).len() > 5 ==> cs[i + 2] == '0' && cs[i + 3] == '0' && cs[i + 4] == hex_char(
            (c as u32) as nat / 16,
        ) && cs[i + 5] == hex_char((c as u32) as nat % 16),
        (c as u32) as nat == ((c as u32) as nat / 16) * 16 + (c as u32) as nat % 16,
{
    let t = escape_char(c);
    assert(cs.subrange(i, i + t.len())[0] == cs[i]);
    if t.len() > 1 {
        assert(cs.subrange(i, i + t.len())[1] == cs[i + 1]);
    }
    if t.len() > 5 {
        assert(cs.subrange(i, i + t.len())[2] == cs[i + 2]);
        assert(cs.subrange(i, i + t.len())[3] == cs[i + 3]);
        assert(cs.subrange(i, i + t.len())[4] == cs[i + 4]);
        assert(cs.subrange(i, i + t.len())[5] == cs[i + 5]);
    }
}

/// Reads one character of a string literal at `i`, escaped or not.
fn read_char(cs: &Vec<char>, i: usize) -> (r: Result<(char, usize), DocumentError>)
    requires
        i < cs@.len(),
    ensures
        match r {
            Ok((c, j)) => unit_at(cs@, i as int) == Some((c, j as int)),
            Err(_) => unit_at(cs@, i as int) is None,
        },
        r matches Ok((_, j)) ==> i < j <= cs@.len(),
        forall|c: char| #[trigger]
            text_at(cs@, i as int, escape_char(c)) ==> r == Ok::<(char, usize), DocumentError>(
                (c, (i + escape_char(c).len()) as usize),
            ),
{
    let n = cs.len();
    let c = cs[i];
    if c == '\\' {
        if i + 1 >= n {
            proof {
                assert forall|c2: char| !#[trigger] text_at(cs@, i as int, escape_char(c2)) by {
                    if text_at(cs@, i as int, escape_char(c2)) {
                        lemma_escape_at(cs@, i as int, c2);
                    }
                }
            }
            return Err(DocumentError::NotAnObjectOfStrings);
        }
        let k = cs[i + 1];
        let hex = if k == 'u' && n - i >= 6 {
            read_hex4(cs, i + 2)
        } else {
            None
        };
        // A `\\u` escape of a high surrogate must be followed by one of a
        // low surrogate; the two stand for one character.
        let unit: Option<(char, usize)> = match hex {
            Some(v) => if v < 0xD800 || v >= 0xE000 {
                match char_from_u32(v) {
                    Some(ch) => Some((ch, 6)),
                    None => None,
                }
            } else if v < 0xDC00 && n - i >= 12 && cs[i + 6] == '\\' && cs[i + 7] == 'u' {
                match read_hex4(cs, i + 8) {
                    Some(w) => if 0xDC00 <= w && w < 0xE000 {
                        match char_from_u32(0x10000 + (v - 0xD800) * 1024 + (w - 0xDC00)) {
                            Some(ch) => Some((ch, 12)),
                            None => None,
                        }
                    } else {
                        None
                    },
                    None => None,
                }
            } else {
                None
            },
            None => None,
        };
        let r = if k == '"' {
            Ok(('"', i + 2))
        } else if k == '\\' {
            Ok(('\\', i + 2))
        } else if k == '/' {
            Ok(('/', i + 2))
        } else if k == 'b' {
            Ok(('\u{8}', i + 2))
        } else if k == 'f' {
            Ok(('\u{c}', i + 2))
        } else if k == 'n' {
            Ok(('\n', i + 2))
        } else if k == 'r' {
            Ok(('\r', i + 2))
        } else if k == 't' {
            Ok(('\t', i + 2))
        } else if k == 'u' && n - i >= 6 {
            match unit {
                Some((ch, width)) => Ok((ch, i + width)),
                None => Err(DocumentError::NotAnObjectOfStrings),
            }
        } else {
            Err(DocumentError::NotAnObjectOfStrings)
        };
        proof {
            if k == 'u' && n - i >= 6 {
                if let Some((ch, width)) = unit {
                    vstd::utf8::char_u32_cast(ch, ch as u32);
                }
            }
            assert forall|c2: char| #[trigger] text_at(cs@, i as int, escape_char(c2)) implies r
                == Ok::<(char, usize), DocumentError>(
                (c2, (i + escape_char(c2).len()) as usize),
            ) by {
                lemma_escape_at(cs@, i as int, c2);
                if escape_char(c2).len() > 5 {
                    let v = (c2 as u32) as nat;
                    assert(hex == Some(v as u32));
                    let (ch, width) = unit->0;
                    assert(width == 6);
                    assert(ch as u32 == c2 as u32);
                    vstd::utf8::char_u32_cast(ch, ch as u32);
                    vstd::utf8::char_u32_cast(c2, c2 as u32);
                }
            }
        }
        r
    } else if (c as u32) < 32 {
        proof {
            assert forall|c2: char| !#[trigger] text_at(cs@, i as int, escape_char(c2)) by {
                if text_at(cs@, i as int, escape_char(c2)) {
                    lemma_escape_at(cs@, i as int, c2);
                }
            }
        }
        Err(DocumentError::NotAnObjectOfStrings)
    } else {
        proof {
            assert forall|c2: char| #[trigger] text_at(cs@, i as int, escape_char(c2)) implies c2
                == c && escape_char(c2).len() == 1 by {
                lemma_escape_at(cs@, i as int, c2);
            }
        }
        Ok((c, i + 1))
    }
}

/// Reads the JSON string literal at `pos`: the string and the position after
/// its closing quote.
fn read_string(cs: &Vec<char>, pos: usize) -> (r: Result<(String, usize), DocumentError>)
    requires
        pos <= cs@.len(),
    ensures
        match r {
            Ok((t, end)) => literal_at(cs@, pos as int) == Some((t@, end as int)),
            Err(_) => literal_at(cs@, pos as int) is None,
        },
        r matches Ok((_, end)) ==> pos < end <= cs@.len(),
        forall|e: Seq<char>|
            #[trigger] text_at(cs@, pos as int, quoted(e)) ==> (r matches Ok((s, end)) && s@ == e
                && end == pos + quoted(e).len()),
{
    let n = cs.len();
    if pos >= n || cs[pos] != '"' {
        proof {
            assert forall|e: Seq<char>| !#[trigger] text_at(cs@, pos as int, quoted(e)) by {
                if text_at(cs@, pos as int, quoted(e)) {
                    assert(cs@.subrange(pos as int, pos + quoted(e).len())[0] == quoted(e)[0]);
                }
            }
        }
        return Err(DocumentError::NotAnObjectOfStrings);
    }
    let mut out = String::new();
    let mut i: usize = pos + 1;
    proof {
        assert forall|e: Seq<char>| #[trigger] text_at(cs@, pos as int, quoted(e)) implies out@
            == e.subrange(0, 0) && i == pos + 1 + escaped(out@).len() by {
            assert(e.subrange(0, 0) =~= Seq::<char>::empty());
        }
    }
    loop
        invariant
            n == cs@.len(),
            pos < i <= n,
            literal_at(cs@, pos as int) == string_rest(cs@, i as int, out@),
            forall|e: Seq<char>| #[trigger]
                text_at(cs@, pos as int, quoted(e)) ==> out@.len() <= e.len() && out@
                    == e.subrange(0, out@.len() as int) && i == pos + 1 + escaped(out@).len(),
        decreases n - i,
    {
        let ghost m = out@.len() as int;
        let ghost before = out@;
        if i >= n {
            proof {
                assert forall|e: Seq<char>| !#[trigger] text_at(cs@, pos as int, quoted(e)) by {
                    if text_at(cs@, pos as int, quoted(e)) {
                        lemma_quoted_at(cs@, pos as int, e, m);
                        if m == e.len() {
                            assert(e.subrange(0, m) =~= e);
                        }
                    }
                }
            }
            return Err(DocumentError::NotAnObjectOfStrings);
        }
        if cs[i] == '"' {
            proof {
                assert forall|e: Seq<char>| #[trigger] text_at(cs@, pos as int, quoted(e)) implies out@
                    == e && i + 1 == pos + quoted(e).len() by {
                    lemma_quoted_at(cs@, pos as int, e, m);
                    if m < e.len() {
                        lemma_escape_at(cs@, i as int, e[m]);
                    }
                    assert(e.subrange(0, m) =~= e);
                }
            }
            return Ok((out, i + 1));
        }
        let step = read_char(cs, i);
        proof {
            assert forall|e: Seq<char>| #[trigger] text_at(cs@, pos as int, quoted(e)) implies m
                < e.len() && step == Ok::<(char, usize), DocumentError>(
                (e[m], (i + escape_char(e[m]).len()) as usize),
            ) by {
                lemma_quoted_at(cs@, pos as int, e, m);
                if m == e.len() {
                    assert(e.subrange(0, m) =~= e);
                }
            }
        }
        match step {
            Ok((ch, next)) => {
                push_char(&mut out, ch);
                let ghost prev_i = i;
                i = next;
                proof {
                    assert forall|e: Seq<char>| #[trigger] text_at(cs@, pos as int, quoted(e)) implies out@.len()
                        <= e.len() && out@ == e.subrange(0, out@.len() as int) && i == pos + 1
                        + escaped(out@).len() by {
                        lemma_quoted_at(cs@, pos as int, e, m);
                        assert(e.subrange(0, m + 1).drop_last() =~= e.subrange(0, m));
                        assert(ch == e[m]);
                        assert(e.subrange(0, m + 1).last() == e[m]);
                        assert(out@ == before.push(ch));
                        assert(before == e.subrange(0, m));
                        assert(prev_i == pos + 1 + escaped(before).len());
                        assert(escaped(e.subrange(0, m + 1)) == escaped(e.subrange(0, m))
                            + escape_char(e[m]));
                        assert(i == prev_i + escape_char(e[m]).len());
                        assert(e.subrange(0, m + 1).drop_last() =~= e.subrange(0, m));
                        assert(out@ =~= e.subrange(0, m + 1));
                    }
                }
            },
            Err(err) => {
                return Err(err);
            },
        }
    }
}

/// The members of the first `k` pairs are a prefix of the members of all,
/// followed by a comma when more come.
proof fn lemma_entries_prefix(ps: Seq<(Seq<char>, Seq<char>)>, k: int)
    requires
        0 <= k <= ps.len(),
    ensures
        entries_text(ps.subrange(0, k)).len() <= entries_text(ps).len(),
        entries_text(ps).subrange(0, entries_text(ps.subrange(0, k)).len() as int) == entries_text(
            ps.subrange(0, k),
        ),
        0 < k < ps.len() ==> entries_text(ps.subrange(0, k)).len() < entries_text(ps).len()
            && entries_text(ps)[entries_text(ps.subrange(0, k)).len() as int] == ',',
    decreases ps.len(),
{
    let whole = entries_text(ps);
    if k == ps.len() {
        assert(ps.subrange(0, k) =~= ps);
        assert(whole.subrange(0, whole.len() as int) =~= whole);
    } else {
        let init = ps.drop_last();
        lemma_entries_prefix(init, k);
        assert(init.subrange(0, k) =~= ps.subrange(0, k));
        let pre = entries_text(ps.subrange(0, k));
        if ps.len() >= 2 {
            assert(whole == entries_text(init) + seq![','] + entry_text(ps.last()));
            assert(whole.subrange(0, pre.len() as int) =~= entries_text(init).subrange(
                0,
                pre.len() as int,
            ));
            if 0 < k {
                if k < init.len() {
                    assert(whole[pre.len() as int] == entries_text(init)[pre.len() as int]);
                } else {
                    assert(init.subrange(0, k) =~= init);
                }
            }
        } else {
            assert(ps.subrange(0, k) =~= Seq::<(Seq<char>, Seq<char>)>::empty());
            assert(whole.subrange(0, 0) =~= Seq::<char>::empty());
        }
    }
}

/// Where the member for pair `n` starts in the document.
pub open spec fn member_offset(ps: Seq<(Seq<char>, Seq<char>)>, n: int) -> int {
    1 + entries_text(ps.subrange(0, n)).len() + if n > 0 { 1int } else { 0int }
}

/// The member for pair `n` stands at its offset: key literal, colon, value
/// literal, then a comma or the closing brace that ends the document.
proof fn lemma_member_at(ps: Seq<(Seq<char>, Seq<char>)>, n: int)
    requires
        0 <= n < ps.len(),
    ensures
        ({
            let d = document_text(ps);
            let o = member_offset(ps, n);
            let k = quoted(ps[n].0);
            let v = quoted(ps[n].1);
            let e = o + k.len() + 1 + v.len();
            &&& text_at(d, o, k)
            &&& d[o + k.len()] == ':'
            &&& text_at(d, o + k.len() + 1, v)
            &&& e == member_offset(ps, n + 1) - 1
            &&& o + k.len() < d.len()
            &&& e < d.len()
            &&& n + 1 < ps.len() ==> d[e] == ','
            &&& n + 1 == ps.len() ==> d[e] == '}' && e + 1 == d.len()
        }),
{
    let d = document_text(ps);
    let o = member_offset(ps, n);
    let k = quoted(ps[n].0);
    let v = quoted(ps[n].1);
    let pre = entries_text(ps.subrange(0, n));
    let upto = entries_text(ps.subrange(0, n + 1));
    let whole = entries_text(ps);
    lemma_entries_prefix(ps, n + 1);
    assert(ps.subrange(0, n + 1).drop_last() =~= ps.subrange(0, n));
    assert(ps.subrange(0, n + 1).last() == ps[n]);
    let member = entry_text(ps[n]);
    if n == 0 {
        assert(upto == member);
    } else {
        assert(upto == pre + seq![','] + member);
    }
    assert(upto.len() == o - 1 + member.len());
    assert(member == k + seq![':'] + v);
    assert forall|j: int| 0 <= j < member.len() implies d[o + j] == member[j] by {
        assert(d[o + j] == whole[o - 1 + j]);
        assert(whole.subrange(0, upto.len() as int)[o - 1 + j] == upto[o - 1 + j]);
    }
    assert(d.subrange(o, o + k.len()) =~= k) by {
        assert forall|j: int| 0 <= j < k.len() implies d.subrange(o, o + k.len())[j] == k[j] by {
            assert(member[j] == k[j]);
        }
    }
    assert(d[o + k.len()] == member[k.len() as int]);
    assert(d.subrange(o + k.len() + 1, o + k.len() + 1 + v.len()) =~= v) by {
        assert forall|j: int| 0 <= j < v.len() implies d.subrange(
            o + k.len() + 1,
            o + k.len() + 1 + v.len(),
        )[j] == v[j] by {
            assert(member[k.len() + 1 + j] == v[j]);
        }
    }
    let e = o + k.len() + 1 + v.len();
    if n + 1 < ps.len() {
        assert(d[e] == whole[upto.len() as int]);
    } else {
        assert(ps.subrange(0, n + 1) =~= ps);
    }
}

fn is_space(c: char) -> (r: bool)
    ensures
        r == is_space_char(c),
{
    c == ' ' || c == '\t' || c == '\n' || c == '\r'
}

/// The first position at or after `i` that holds no whitespace.
fn skip_space(cs: &Vec<char>, i: usize) -> (j: usize)
    requires
        i <= cs@.len(),
    ensures
        i <= j <= cs@.len(),
        i < cs@.len() && !(cs@[i as int] == ' ' || cs@[i as int] == '\t' || cs@[i as int] == '\n'
            || cs@[i as int] == '\r') ==> j == i,
        i == cs@.len() ==> j == i,
        j == skip_ws(cs@, i as int),
{
    let mut j: usize = i;
    while j < cs.len() && is_space(cs[j])
        invariant
            i <= j <= cs@.len(),
            skip_ws(cs@, i as int) == skip_ws(cs@, j as int),
            i < cs@.len() && !(cs@[i as int] == ' ' || cs@[i as int] == '\t' || cs@[i as int]
                == '\n' || cs@[i as int] == '\r') ==> j == i,
        decreases cs@.len() - j,
    {
        j += 1;
    }
    j
}

/// Reads a document: one JSON object whose values are all strings, with
/// whitespace allowed between tokens. Gives the pairs in document order
/// exactly when the text is such a document (see [`parse_document`]), and an
/// error otherwise. The canonical document of any pairs reads back as
/// exactly those pairs.
#[verifier::spinoff_prover]
#[verifier::rlimit(100)]
pub fn decode_document(text: &str) -> (r: Result<Vec<(String, String)>, DocumentError>)
    ensures
        match r {
            Ok(v) => parse_document(text@) == Some(pairs_view(v@)),
            Err(_) => parse_document(text@) is None,
        },
        forall|ps: Seq<(Seq<char>, Seq<char>)>|
            #[trigger] document_text(ps) == text@ ==> (r matches Ok(v) && pairs_view(v@) == ps),
{
    let cs = crate::text::chars_of(text);
    let n = cs.len();
    let err = Err(DocumentError::NotAnObjectOfStrings);
    proof {
        assert forall|ps: Seq<(Seq<char>, Seq<char>)>| #[trigger] document_text(ps) == cs@ implies cs@[0]
            == '{' && (ps.len() == 0 ==> cs@.len() == 2 && cs@[1] == '}') && (ps.len() > 0
            ==> cs@[1] == '"') by {
            if ps.len() == 0 {
                assert(entries_text(ps) =~= Seq::<char>::empty());
            } else {
                lemma_member_at(ps, 0);
                assert(ps.subrange(0, 0) =~= Seq::<(Seq<char>, Seq<char>)>::empty());
                assert(entries_text(ps.subrange(0, 0)) =~= Seq::<char>::empty());
                assert(cs@.subrange(1, 1 + quoted(ps[0].0).len() as int)[0] == cs@[1]);
            }
        }
    }
    let mut pos = skip_space(&cs, 0);
    if pos >= n || cs[pos] != '{' {
        return err;
    }
    pos = skip_space(&cs, pos + 1);
    let mut out: Vec<(String, String)> = Vec::new();
    assert(pairs_view(out@) =~= Seq::<(Seq<char>, Seq<char>)>::empty());
    if pos < n && cs[pos] == '}' {
        let end = skip_space(&cs, pos + 1);
        if end == n {
            proof {
                assert forall|ps: Seq<(Seq<char>, Seq<char>)>| #[trigger] document_text(ps) == cs@ implies pairs_view(out@) == ps by {
                    assert(pairs_view(out@) =~= ps);
                }
            }
            return Ok(out);
        }
        return err;
    }
    proof {
        assert forall|ps: Seq<(Seq<char>, Seq<char>)>| #[trigger] document_text(ps) == cs@ implies
            out@.len() < ps.len() && pairs_view(out@) == ps.subrange(0, out@.len() as int)
            && pos == member_offset(ps, out@.len() as int) by {
            assert(ps.subrange(0, 0) =~= Seq::<(Seq<char>, Seq<char>)>::empty());
            assert(pairs_view(out@) =~= ps.subrange(0, 0));
            assert(entries_text(ps.subrange(0, 0)) =~= Seq::<char>::empty());
        }
    }
    loop
        invariant
            n == cs@.len(),
            cs@ == text@,
            err == Err::<Vec<(String, String)>, DocumentError>(DocumentError::NotAnObjectOfStrings),
            parse_document(cs@) == members_rest(cs@, pos as int, pairs_view(out@)),
            pos <= n,
            forall|ps: Seq<(Seq<char>, Seq<char>)>| #[trigger]
                document_text(ps) == cs@ ==> out@.len() < ps.len() && pairs_view(out@)
                    == ps.subrange(0, out@.len() as int) && pos == member_offset(ps, out@.len() as int),
        decreases n - pos,
    {
        let ghost m = out@.len() as int;
        let ghost start_pos = pos as int;
        let ghost acc = pairs_view(out@);
        proof {
            assert forall|ps: Seq<(Seq<char>, Seq<char>)>| #[trigger] document_text(ps) == cs@ implies
                text_at(cs@, pos as int, quoted(ps[m].0)) by {
                lemma_member_at(ps, m);
            }
        }
        let (key, key_end) = match read_string(&cs, pos) {
            Ok(x) => x,
            Err(e) => {
                proof {
                    assert forall|ps: Seq<(Seq<char>, Seq<char>)>| #[trigger] document_text(ps) != cs@ by {
                        if document_text(ps) == cs@ {
                            assert(text_at(cs@, pos as int, quoted(ps[m].0)));
                        }
                    }
                }
                return Err(e);
            },
        };
        let colon = skip_space(&cs, key_end);
        proof {
            assert forall|ps: Seq<(Seq<char>, Seq<char>)>| #[trigger] document_text(ps) == cs@ implies
                key@ == ps[m].0 && key_end == pos + quoted(ps[m].0).len() && colon == key_end && colon < n
                && cs@[colon as int] == ':' by {
                lemma_member_at(ps, m);
            }
        }
        if colon >= n || cs[colon] != ':' {
            return err;
        }
        let value_start = skip_space(&cs, colon + 1);
        proof {
            assert forall|ps: Seq<(Seq<char>, Seq<char>)>| #[trigger] document_text(ps) == cs@ implies
                value_start == colon + 1 && colon == pos + quoted(ps[m].0).len() && text_at(
                cs@,
                value_start as int,
                quoted(ps[m].1),
            ) by {
                lemma_member_at(ps, m);
                let v = quoted(ps[m].1);
                assert(cs@.subrange(colon + 1, colon + 1 + v.len())[0] == cs@[colon + 1]);
            }
        }
        let (value, value_end) = match read_string(&cs, value_start) {
            Ok(x) => x,
            Err(e) => {
                proof {
                    assert forall|ps: Seq<(Seq<char>, Seq<char>)>| #[trigger] document_text(ps) != cs@ by {
                        if document_text(ps) == cs@ {
                            assert(text_at(cs@, value_start as int, quoted(ps[m].1)));
                        }
                    }
                }
                return Err(e);
            },
        };
        let ghost before = out@;
        out.push((key, value));
        let after = skip_space(&cs, value_end);
        proof {
            assert forall|ps: Seq<(Seq<char>, Seq<char>)>| #[trigger] document_text(ps) == cs@ implies
                after == value_end && after < n && value_end + 1 == member_offset(ps, m + 1) && pairs_view(out@)
                == ps.subrange(0, m + 1) && (m + 1 < ps.len() ==> cs@[after as int] == ',') && (m + 1
                == ps.len() ==> cs@[after as int] == '}' && after + 1 == n) by {
                lemma_member_at(ps, m);
                assert(pairs_view(out@) =~= ps.subrange(0, m + 1)) by {
                    assert(pairs_view(before) == ps.subrange(0, m));
                    assert(pairs_view(out@)[m] == ps[m]);
                    assert forall|j: int| 0 <= j < m implies pairs_view(out@)[j] == ps[j] by {
                        assert(pairs_view(out@)[j] == pairs_view(before)[j]);
                        assert(ps.subrange(0, m)[j] == ps[j]);
                    }
                }
            }
        }
        if after < n && cs[after] == ',' {
            pos = skip_space(&cs, after + 1);
            assert(pairs_view(out@) =~= acc.push((key@, value@)));
            assert(members_rest(cs@, start_pos, acc) == members_rest(
                cs@,
                pos as int,
                acc.push((key@, value@)),
            ));
            proof {
                assert forall|ps: Seq<(Seq<char>, Seq<char>)>| #[trigger] document_text(ps) == cs@ implies
                    pos == member_offset(ps, m + 1) && out@.len() < ps.len() by {
                    if m + 1 == ps.len() {
                        assert(cs@[after as int] == '}');
                    }
                    lemma_member_at(ps, m + 1);
                    let k = quoted(ps[m + 1].0);
                    assert(cs@.subrange(after + 1, after + 1 + k.len())[0] == cs@[after + 1]);
                }
            }
        } else if after < n && cs[after] == '}' {
            let end = skip_space(&cs, after + 1);
            if end == n {
                proof {
                    assert forall|ps: Seq<(Seq<char>, Seq<char>)>| #[trigger] document_text(ps) == cs@ implies
                        pairs_view(out@) == ps by {
                        if m + 1 < ps.len() {
                            assert(cs@[after as int] == ',');
                        }
                        assert(ps.subrange(0, m + 1) =~= ps);
                    }
                }
                return Ok(out);
            }
            return err;
        } else {
            return err;
        }
    }
}

} // verus!

verus! {

proof fn lemma_hex_char_value(d: nat)
    requires
        d < 16,
    ensures
        hex_digit_value(hex_char(d)) == Some(d),
{
}

/// The escape of `c` reads back as `c`.
proof fn lemma_unit_of_escape(cs: Seq<char>, i: int, c: char)
    requires
        text_at(cs, i, escape_char(c)),
    ensures
        unit_at(cs, i) == Some((c, i + escape_char(c).len())),
{
    lemma_escape_at(cs, i, c);
    let t = escape_char(c);
    if t.len() > 5 {
        let v = (c as u32) as nat;
        lemma_hex_char_value(v / 16);
        lemma_hex_char_value(v % 16);
        assert(hex_digit_value('0') == Some(0nat));
        assert(hex4_value(cs, i + 2) == Some(v));
        vstd::utf8::char_u32_cast(c, c as u32);
    }
}

/// The string literal for `e` reads back as `e`.
proof fn lemma_string_rest(cs: Seq<char>, pos: int, e: Seq<char>, m: int)
    requires
        text_at(cs, pos, quoted(e)),
        0 <= m <= e.len(),
    ensures
        string_rest(cs, pos + 1 + escaped(e.subrange(0, m)).len(), e.subrange(0, m)) == Some(
            (e, pos + quoted(e).len()),
        ),
    decreases e.len() - m,
{
    lemma_quoted_at(cs, pos, e, m);
    let i = pos + 1 + escaped(e.subrange(0, m)).len();
    if m == e.len() {
        assert(e.subrange(0, m) =~= e);
    } else {
        let t = escape_char(e[m]);
        lemma_escape_at(cs, i, e[m]);
        lemma_unit_of_escape(cs, i, e[m]);
        assert(e.subrange(0, m + 1).drop_last() =~= e.subrange(0, m));
        assert(e.subrange(0, m).push(e[m]) =~= e.subrange(0, m + 1));
        assert(escaped(e.subrange(0, m + 1)) == escaped(e.subrange(0, m)) + t);
        lemma_string_rest(cs, pos, e, m + 1);
    }
}

proof fn lemma_literal_at(cs: Seq<char>, pos: int, e: Seq<char>)
    requires
        text_at(cs, pos, quoted(e)),
    ensures
        literal_at(cs, pos) == Some((e, pos + quoted(e).len())),
{
    assert(cs.subrange(pos, pos + quoted(e).len())[0] == cs[pos]);
    assert(e.subrange(0, 0) =~= Seq::<char>::empty());
    assert(escaped(Seq::<char>::empty()) == Seq::<char>::empty());
    lemma_string_rest(cs, pos, e, 0);
}

proof fn lemma_members_rest(ps: Seq<(Seq<char>, Seq<char>)>, n: int)
    requires
        0 <= n < ps.len(),
    ensures
        members_rest(document_text(ps), member_offset(ps, n), ps.subrange(0, n)) == Some(ps),
    decreases ps.len() - n,
{
    let d = document_text(ps);
    let o = member_offset(ps, n);
    let k = quoted(ps[n].0);
    let v = quoted(ps[n].1);
    lemma_member_at(ps, n);
    lemma_literal_at(d, o, ps[n].0);
    let key_end = o + k.len();
    assert(skip_ws(d, key_end) == key_end);
    lemma_literal_at(d, key_end + 1, ps[n].1);
    assert(d.subrange(key_end + 1, key_end + 1 + v.len())[0] == d[key_end + 1]);
    assert(skip_ws(d, key_end + 1) == key_end + 1);
    let after = key_end + 1 + v.len();
    assert(skip_ws(d, after) == after);
    assert(ps.subrange(0, n).push(ps[n]) =~= ps.subrange(0, n + 1));
    if n + 1 < ps.len() {
        lemma_member_at(ps, n + 1);
        let k2 = quoted(ps[n + 1].0);
        assert(d.subrange(after + 1, after + 1 + k2.len())[0] == d[after + 1]);
        assert(skip_ws(d, after + 1) == after + 1);
        lemma_members_rest(ps, n + 1);
    } else {
        assert(skip_ws(d, after + 1) == after + 1);
        assert(ps.subrange(0, n + 1) =~= ps);
    }
}

/// The canonical document of any pairs parses back as exactly those pairs.
pub proof fn lemma_document_round_trip(ps: Seq<(Seq<char>, Seq<char>)>)
    ensures
        parse_document(document_text(ps)) == Some(ps),
{
    let d = document_text(ps);
    assert(skip_ws(d, 0) == 0);
    if ps.len() == 0 {
        assert(entries_text(ps) =~= Seq::<char>::empty());
        assert(skip_ws(d, 1) == 1);
        assert(skip_ws(d, 2) == 2);
        assert(ps =~= Seq::<(Seq<char>, Seq<char>)>::empty());
    } else {
        lemma_member_at(ps, 0);
        assert(ps.subrange(0, 0) =~= Seq::<(Seq<char>, Seq<char>)>::empty());
        assert(entries_text(ps.subrange(0, 0)) =~= Seq::<char>::empty());
        assert(d.subrange(1, 1 + quoted(ps[0].0).len() as int)[0] == d[1]);
        assert(skip_ws(d, 1) == 1);
        lemma_members_rest(ps, 0);
    }
}

} // verus!

verus! {

/// The relational backend after each write `(key, text)`, in order: an
/// upsert of the row for the key.
pub open spec fn rows_after(
    rows: Seq<(Seq<char>, Seq<char>)>,
    writes: Seq<(Seq<char>, Seq<char>)>,
) -> Seq<(Seq<char>, Seq<char>)>
    decreases writes.len(),
{
    if writes.len() == 0 {
        rows
    } else {
        upsert(rows_after(rows, writes.drop_last()), writes.last().0, writes.last().1)
    }
}

/// One write to the structured-text backend: the document is read, the pair
/// for the key is replaced or appended, and the canonical document of the
/// result is written in its place. A text that does not read is left as it
/// is.
pub open spec fn document_write(doc: Seq<char>, key: Seq<char>, raw: Seq<char>) -> Seq<char> {
    match parse_document(doc) {
        Some(ps) => document_text(upsert(ps, key, raw)),
        None => doc,
    }
}

/// The structured-text backend after each write, in order.
pub open spec fn document_after(doc: Seq<char>, writes: Seq<(Seq<char>, Seq<char>)>) -> Seq<char>
    decreases writes.len(),
{
    if writes.len() == 0 {
        doc
    } else {
        document_write(document_after(doc, writes.drop_last()), writes.last().0, writes.last().1)
    }
}

/// The two backends agree: started on the same pairs and given the same
/// writes, the document reads back as exactly the relational rows, so a
/// store opened on either shows the same value for every key.
pub proof fn lemma_backends_agree(
    rows: Seq<(Seq<char>, Seq<char>)>,
    writes: Seq<(Seq<char>, Seq<char>)>,
    schema: Seq<InfoModel>,
    autosave: bool,
    key: Seq<char>,
    fallback: Option<SettingModel>,
)
    ensures
        parse_document(document_after(document_text(rows), writes)) == Some(
            rows_after(rows, writes),
        ),
        opened(
            schema,
            parse_document(document_after(document_text(rows), writes))->0,
            autosave,
        ).get(key, fallback) == opened(schema, rows_after(rows, writes), autosave).get(
            key,
            fallback,
        ),
    decreases writes.len(),
{
    if writes.len() == 0 {
        lemma_document_round_trip(rows);
    } else {
        lemma_backends_agree(rows, writes.drop_last(), schema, autosave, key, fallback);
        lemma_document_round_trip(
            upsert(rows_after(rows, writes.drop_last()), writes.last().0, writes.last().1),
        );
    }
}

} // verus!
