//! The broadcast snapshot's JSON wire format.
//!
//! Entities describe themselves as small JSON objects; the server merges
//! those projections into one aggregate object keyed by entity identifier
//! and serializes it.  The format is fixed here: an aggregate object whose
//! values are scalars or flat objects of scalars, rendered without
//! whitespace, with the usual escapes inside strings.

use crate::table::Table;
use vstd::prelude::*;

verus! {

/// A scalar JSON value.
pub enum JsonAtom {
    Int(i64),
    Text(String),
}

/// A value of the aggregate object: a scalar, or a flat object of scalars.
pub enum JsonNode {
    Atom(JsonAtom),
    Obj(Vec<(String, JsonAtom)>),
}

/// The decimal digit `d` as a character.
pub open spec fn digit_char(d: int) -> char {
    if d == 0 {
        '0'
    } else if d == 1 {
        '1'
    } else if d == 2 {
        '2'
    } else if d == 3 {
        '3'
    } else if d == 4 {
        '4'
    } else if d == 5 {
        '5'
    } else if d == 6 {
        '6'
    } else if d == 7 {
        '7'
    } else if d == 8 {
        '8'
    } else {
        '9'
    }
}

/// The hexadecimal digit `d` as a lower-case character.
pub open spec fn hex_char(d: int) -> char {
    if d < 10 {
        digit_char(d)
    } else if d == 10 {
        'a'
    } else if d == 11 {
        'b'
    } else if d == 12 {
        'c'
    } else if d == 13 {
        'd'
    } else if d == 14 {
        'e'
    } else {
        'f'
    }
}

/// The decimal text of a non-negative number.
pub open spec fn dec_text(n: int) -> Seq<char>
    recommends
        n >= 0,
    decreases n,
{
    if n < 10 {
        seq![digit_char(n)]
    } else {
        dec_text(n / 10) + seq![digit_char(n % 10)]
    }
}

/// The decimal text of an integer, with a leading minus for negatives.
pub open spec fn int_text(i: int) -> Seq<char> {
    if i < 0 {
        seq!['-'] + dec_text(-i)
    } else {
        dec_text(i)
    }
}

/// How one character is written inside a JSON string.
pub open spec fn escape_char(c: char) -> Seq<char> {
    if c == '"' {
        seq!['\\', '"']
    } else if c == '\\' {
        seq!['\\', '\\']
    } else if c == '\n' {
        seq!['\\', 'n']
    } else if c == '\r' {
        seq!['\\', 'r']
    } else if c == '\t' {
        seq!['\\', 't']
    } else if (c as u32) < 32 {
        seq!['\\', 'u', '0', '0', hex_char(c as u32 as int / 16), hex_char(c as u32 as int % 16)]
    } else {
        seq![c]
    }
}

/// A string's content with every character escaped as JSON asks.
pub open spec fn escape_text(s: Seq<char>) -> Seq<char>
    decreases s.len(),
{
    if s.len() == 0 {
        Seq::empty()
    } else {
        escape_text(s.drop_last()) + escape_char(s.last())
    }
}

/// A JSON string literal: the escaped content in double quotes.
pub open spec fn quoted(s: Seq<char>) -> Seq<char> {
    seq!['"'] + escape_text(s) + seq!['"']
}

/// The text of a scalar.
pub open spec fn atom_text(a: JsonAtom) -> Seq<char> {
    match a {
        JsonAtom::Int(i) => int_text(i as int),
        JsonAtom::Text(t) => quoted(t@),
    }
}

/// The comma-separated `"key":value` entries of a flat object of scalars.
pub open spec fn fields_text(fs: Seq<(String, JsonAtom)>) -> Seq<char>
    decreases fs.len(),
{
    if fs.len() == 0 {
        Seq::empty()
    } else if fs.len() == 1 {
        quoted(fs[0].0@) + seq![':'] + atom_text(fs[0].1)
    } else {
        fields_text(fs.drop_last()) + seq![','] + quoted(fs.last().0@) + seq![':'] + atom_text(
            fs.last().1,
        )
    }
}

/// The text of an aggregate value.
pub open spec fn node_text(n: JsonNode) -> Seq<char> {
    match n {
        JsonNode::Atom(a) => atom_text(a),
        JsonNode::Obj(fs) => seq!['{'] + fields_text(fs@) + seq!['}'],
    }
}

/// The comma-separated entries of the aggregate object, keys as views.
pub open spec fn entries_text(es: Seq<(Seq<char>, JsonNode)>) -> Seq<char>
    decreases es.len(),
{
    if es.len() == 0 {
        Seq::empty()
    } else if es.len() == 1 {
        quoted(es[0].0) + seq![':'] + node_text(es[0].1)
    } else {
        entries_text(es.drop_last()) + seq![','] + quoted(es.last().0) + seq![':'] + node_text(
            es.last().1,
        )
    }
}

/// The serialized aggregate object.
pub open spec fn object_text(es: Seq<(Seq<char>, JsonNode)>) -> Seq<char> {
    seq!['{'] + entries_text(es) + seq!['}']
}

/// Whether some aggregate entry has key `k`.
pub open spec fn view_has_key(es: Seq<(Seq<char>, JsonNode)>, k: Seq<char>) -> bool {
    exists|i: int| 0 <= i < es.len() && es[i].0 == k
}

/// The position of the entry with key `k`.
pub open spec fn view_idx_of(es: Seq<(Seq<char>, JsonNode)>, k: Seq<char>) -> int
    recommends
        view_has_key(es, k),
{
    choose|i: int| 0 <= i < es.len() && es[i].0 == k
}

/// One merge step: replace the value under `k` in place, or append a new
/// entry.
pub open spec fn upsert_view(
    es: Seq<(Seq<char>, JsonNode)>,
    k: Seq<char>,
    v: JsonNode,
) -> Seq<(Seq<char>, JsonNode)> {
    if view_has_key(es, k) {
        es.update(view_idx_of(es, k), (k, v))
    } else {
        es.push((k, v))
    }
}

/// Merging a projection's entries into the aggregate, first to last, each
/// key's last written value winning.
pub open spec fn merge_entries(
    acc: Seq<(Seq<char>, JsonNode)>,
    es: Seq<(Seq<char>, JsonNode)>,
) -> Seq<(Seq<char>, JsonNode)>
    decreases es.len(),
{
    if es.len() == 0 {
        acc
    } else {
        merge_entries(upsert_view(acc, es[0].0, es[0].1), es.drop_first())
    }
}

/// Merging entries that never use key `k` cannot put `k` into the
/// aggregate.
pub proof fn lemma_merge_no_key(
    acc: Seq<(Seq<char>, JsonNode)>,
    es: Seq<(Seq<char>, JsonNode)>,
    k: Seq<char>,
)
    requires
        !view_has_key(acc, k),
        forall|i: int| 0 <= i < es.len() ==> (#[trigger] es[i]).0 != k,
    ensures
        !view_has_key(merge_entries(acc, es), k),
    decreases es.len(),
{
    if es.len() > 0 {
        let up = upsert_view(acc, es[0].0, es[0].1);
        assert(!view_has_key(up, k)) by {
            if view_has_key(up, k) {
                let x = choose|x: int| 0 <= x < up.len() && up[x].0 == k;
                if view_has_key(acc, es[0].0) {
                    assert(acc[x].0 == k);
                } else {
                    if x < acc.len() {
                        assert(acc[x].0 == k);
                    } else {
                        assert(up[x].0 == es[0].0);
                    }
                }
            }
        }
        assert forall|i: int| 0 <= i < es.drop_first().len() implies (#[trigger] es.drop_first()[i]).0
            != k by {
            assert(es.drop_first()[i] == es[i + 1]);
        }
        lemma_merge_no_key(up, es.drop_first(), k);
    }
}

/// The views of a projection's entries.
pub open spec fn entry_views(es: Seq<(String, JsonNode)>) -> Seq<(Seq<char>, JsonNode)> {
    Seq::new(es.len(), |i: int| (es[i].0@, es[i].1))
}

/// The entries held by an aggregate table, in insertion order.
pub open spec fn table_entries(t: Table<JsonNode>) -> Seq<(Seq<char>, JsonNode)> {
    Seq::new(t.key_seq().len(), |i: int| (t.key_seq()[i], t.val_at(i)))
}

/// One decimal digit as a string slice.
fn digit_str(d: u64) -> (r: &'static str)
    requires
        d < 10,
    ensures
        r@ == seq![digit_char(d as int)],
{
    proof {
        reveal_strlit("0");
        reveal_strlit("1");
        reveal_strlit("2");
        reveal_strlit("3");
        reveal_strlit("4");
        reveal_strlit("5");
        reveal_strlit("6");
        reveal_strlit("7");
        reveal_strlit("8");
        reveal_strlit("9");
    }
    let r = match d {
        0 => "0",
        1 => "1",
        2 => "2",
        3 => "3",
        4 => "4",
        5 => "5",
        6 => "6",
        7 => "7",
        8 => "8",
        _ => "9",
    };
    proof {
        assert(r@ =~= seq![digit_char(d as int)]);
    }
    r
}

/// One hexadecimal digit as a string slice.
fn hex_str(d: u32) -> (r: &'static str)
    requires
        d < 16,
    ensures
        r@ == seq![hex_char(d as int)],
{
    if d < 10 {
        digit_str(d as u64)
    } else {
        proof {
            reveal_strlit("a");
            reveal_strlit("b");
            reveal_strlit("c");
            reveal_strlit("d");
            reveal_strlit("e");
            reveal_strlit("f");
        }
        let r = match d {
            10 => "a",
            11 => "b",
            12 => "c",
            13 => "d",
            14 => "e",
            _ => "f",
        };
        proof {
            assert(r@ =~= seq![hex_char(d as int)]);
        }
        r
    }
}

/// Appends the decimal text of `n`.
fn push_dec(n: u64, out: &mut String)
    ensures
        final(out)@ == old(out)@ + dec_text(n as int),
    decreases n,
{
    if n < 10 {
        out.append(digit_str(n));
    } else {
        push_dec(n / 10, out);
        out.append(digit_str(n % 10));
        proof {
            assert(old(out)@ + dec_text(n as int) =~= (old(out)@ + dec_text(n as int / 10))
                + seq![digit_char(n as int % 10)]);
        }
    }
}

/// Appends the decimal text of `i`, with a minus sign for negatives.
fn push_int(i: i64, out: &mut String)
    ensures
        final(out)@ == old(out)@ + int_text(i as int),
{
    if i >= 0 {
        push_dec(i as u64, out);
    } else {
        out.append("-");
        proof {
            reveal_strlit("-");
            assert("-"@ =~= seq!['-']);
        }
        let m: u64 = (-(i as i128)) as u64;
        push_dec(m, out);
        proof {
            assert(old(out)@ + int_text(i as int) =~= (old(out)@ + seq!['-']) + dec_text(
                m as int,
            ));
        }
    }
}

/// Appends the escaped content of `s`.
fn push_escaped(s: &str, out: &mut String)
    ensures
        final(out)@ == old(out)@ + escape_text(s@),
{
    let n = s.unicode_len();
    let mut i: usize = 0;
    proof {
        assert(old(out)@ + escape_text(s@.take(0)) =~= old(out)@);
    }
    while i < n
        invariant
            n == s@.len(),
            i <= n,
            out@ == old(out)@ + escape_text(s@.take(i as int)),
        decreases n - i,
    {
        let c = s.get_char(i);
        if c == '"' {
            out.append("\\\"");
            proof {
                reveal_strlit("\\\"");
            }
        } else if c == '\\' {
            out.append("\\\\");
            proof {
                reveal_strlit("\\\\");
            }
        } else if c == '\n' {
            out.append("\\n");
            proof {
                reveal_strlit("\\n");
            }
        } else if c == '\r' {
            out.append("\\r");
            proof {
                reveal_strlit("\\r");
            }
        } else if c == '\t' {
            out.append("\\t");
            proof {
                reveal_strlit("\\t");
            }
        } else if (c as u32) < 32 {
            out.append("\\u00");
            out.append(hex_str((c as u32) / 16));
            out.append(hex_str((c as u32) % 16));
            proof {
                reveal_strlit("\\u00");
            }
        } else {
            out.append(s.substring_char(i, i + 1));
            proof {
                assert(s@.subrange(i as int, i + 1) =~= seq![c]);
            }
        }
        proof {
            assert(s@.take(i + 1).drop_last() =~= s@.take(i as int));
            assert(s@.take(i + 1).last() == c);
            assert(out@ =~= old(out)@ + escape_text(s@.take(i + 1)));
        }
        i += 1;
    }
    proof {
        assert(s@.take(n as int) =~= s@);
    }
}

/// Appends `s` as a JSON string literal.
fn push_quoted(s: &str, out: &mut String)
    ensures
        final(out)@ == old(out)@ + quoted(s@),
{
    out.append("\"");
    push_escaped(s, out);
    out.append("\"");
    proof {
        reveal_strlit("\"");
        assert("\""@ =~= seq!['"']);
        assert(final(out)@ =~= old(out)@ + quoted(s@));
    }
}

/// Appends the text of a scalar.
fn push_atom(a: &JsonAtom, out: &mut String)
    ensures
        final(out)@ == old(out)@ + atom_text(*a),
{
    match a {
        JsonAtom::Int(i) => push_int(*i, out),
        JsonAtom::Text(t) => push_quoted(t.as_str(), out),
    }
}

/// Appends the text of an aggregate value.
fn push_node(n: &JsonNode, out: &mut String)
    ensures
        final(out)@ == old(out)@ + node_text(*n),
{
    match n {
        JsonNode::Atom(a) => push_atom(a, out),
        JsonNode::Obj(fs) => {
            out.append("{");
            proof {
                reveal_strlit("{");
                assert("{"@ =~= seq!['{']);
                assert(out@ + fields_text(fs@.take(0)) =~= out@);
            }
            let ghost base = out@;
            let m = fs.len();
            let mut j: usize = 0;
            while j < m
                invariant
                    m == fs@.len(),
                    j <= m,
                    out@ == base + fields_text(fs@.take(j as int)),
                decreases m - j,
            {
                if j > 0 {
                    out.append(",");
                    proof {
                        reveal_strlit(",");
                    }
                }
                let f = &fs[j];
                push_quoted(f.0.as_str(), out);
                out.append(":");
                push_atom(&f.1, out);
                proof {
                    reveal_strlit(":");
                    reveal_strlit(",");
                    assert(":"@ =~= seq![':']);
                    assert(","@ =~= seq![',']);
                    assert(fs@.take(j + 1).drop_last() =~= fs@.take(j as int));
                    assert(fs@.take(j + 1).last() == fs@[j as int]);
                    assert(out@ =~= base + fields_text(fs@.take(j + 1)));
                }
                j += 1;
            }
            proof {
                assert(fs@.take(m as int) =~= fs@);
            }
            out.append("}");
            proof {
                reveal_strlit("}");
                assert("}"@ =~= seq!['}']);
                assert(out@ =~= old(out)@ + node_text(JsonNode::Obj(*fs)));
            }
        },
    }
}

/// Serializes the aggregate table as one JSON object, entries in insertion
/// order.
pub fn json_object_string(t: &Table<JsonNode>) -> (r: String)
    ensures
        r@ == object_text(table_entries(*t)),
{
    let mut out = String::from_str("{");
    proof {
        reveal_strlit("{");
        assert("{"@ =~= seq!['{']);
        assert(out@ + entries_text(table_entries(*t).take(0)) =~= out@);
    }
    let ghost base = out@;
    let n = t.len();
    let mut i: usize = 0;
    while i < n
        invariant
            n == t.key_seq().len(),
            i <= n,
            out@ == base + entries_text(table_entries(*t).take(i as int)),
        decreases n - i,
    {
        if i > 0 {
            out.append(",");
            proof {
                reveal_strlit(",");
            }
        }
        let e = t.entry_at(i);
        push_quoted(e.0.as_str(), &mut out);
        out.append(":");
        push_node(e.1, &mut out);
        proof {
            reveal_strlit(":");
            reveal_strlit(",");
            assert(":"@ =~= seq![':']);
            assert(","@ =~= seq![',']);
            let es = table_entries(*t);
            assert(es.take(i + 1).drop_last() =~= es.take(i as int));
            assert(es.take(i + 1).last() == es[i as int]);
            assert(out@ =~= base + entries_text(es.take(i + 1)));
        }
        i += 1;
    }
    proof {
        assert(table_entries(*t).take(n as int) =~= table_entries(*t));
    }
    out.append("}");
    proof {
        reveal_strlit("}");
        assert("}"@ =~= seq!['}']);
        assert(out@ =~= object_text(table_entries(*t)));
    }
    out
}

} // verus!
