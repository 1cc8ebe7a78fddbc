use vstd::prelude::*;
use vstd::string::*;

use crate::meta::FSMeta;
use crate::node::{nodes_view, FSNode, NodeView};

verus! {

// The tree is sent to clients as untagged JSON: a `File` node is a bare
// string, a `Dir` node a bare object with a single key mapping the
// directory's path to the array of its children. A consumer tells the two
// apart by the value's shape alone. The encoding is spelled out here,
// character by character, by `json_of_node`.

/// The sixteen hexadecimal digit characters, lower case.
pub open spec fn hex_digit(n: int) -> char {
    if n == 0 {
        '0'
    } else if n == 1 {
        '1'
    } else if n == 2 {
        '2'
    } else if n == 3 {
        '3'
    } else if n == 4 {
        '4'
    } else if n == 5 {
        '5'
    } else if n == 6 {
        '6'
    } else if n == 7 {
        '7'
    } else if n == 8 {
        '8'
    } else if n == 9 {
        '9'
    } else if n == 10 {
        'a'
    } else if n == 11 {
        'b'
    } else if n == 12 {
        'c'
    } else if n == 13 {
        'd'
    } else if n == 14 {
        'e'
    } else {
        'f'
    }
}

/// How one character appears inside a JSON string literal: quote and
/// backslash escaped, control characters as `\u00..`, all else verbatim.
pub open spec fn esc_char(c: char) -> Seq<char> {
    if c == '"' {
        seq!['\\', '"']
    } else if c == '\\' {
        seq!['\\', '\\']
    } else if (c as u32) < 0x20 {
        seq!['\\', 'u', '0', '0', hex_digit(((c as u32) as int) / 16), hex_digit(((c as u32) as int) % 16)]
    } else {
        seq![c]
    }
}

/// A whole text escaped for a JSON string literal.
pub open spec fn esc_text(s: Seq<char>) -> Seq<char>
    decreases s.len(),
{
    if s.len() == 0 {
        Seq::empty()
    } else {
        esc_text(s.drop_last()) + esc_char(s.last())
    }
}

/// A JSON string literal: the escaped text between double quotes.
pub open spec fn json_string(s: Seq<char>) -> Seq<char> {
    seq!['"'] + esc_text(s) + seq!['"']
}

/// The untagged JSON of one tree node: a bare string for a `File`, a
/// single-key object `{"key":[children]}` for a `Dir`.
pub open spec fn json_of_node(n: NodeView) -> Seq<char>
    decreases n,
{
    match n {
        NodeView::File(s) => json_string(s),
        NodeView::Dir { key, children } => seq!['{'] + json_string(key) + seq![':', '[']
            + json_of_children(children) + seq![']', '}'],
    }
}

/// The children joined with commas.
pub open spec fn json_of_children(cs: Seq<NodeView>) -> Seq<char>
    decreases cs,
{
    if cs.len() == 0 {
        Seq::empty()
    } else if cs.len() == 1 {
        json_of_node(cs[0])
    } else {
        json_of_children(cs.drop_last()) + seq![','] + json_of_node(cs.last())
    }
}

/// A consumer tells the two node shapes apart by the JSON value's first
/// character alone: a `File` is a string literal, a `Dir` an object.
pub proof fn lemma_untagged_shapes(n: NodeView)
    ensures
        n is File ==> json_of_node(n).first() == '"',
        n is Dir ==> json_of_node(n).first() == '{',
{
}

/// The value of a low hex digit, 16 for any other character.
pub open spec fn hex_val(c: char) -> int {
    if c == '0' {
        0
    } else if c == '1' {
        1
    } else if c == '2' {
        2
    } else if c == '3' {
        3
    } else if c == '4' {
        4
    } else if c == '5' {
        5
    } else if c == '6' {
        6
    } else if c == '7' {
        7
    } else if c == '8' {
        8
    } else if c == '9' {
        9
    } else if c == 'a' {
        10
    } else if c == 'b' {
        11
    } else if c == 'c' {
        12
    } else if c == 'd' {
        13
    } else if c == 'e' {
        14
    } else if c == 'f' {
        15
    } else {
        16
    }
}

/// What a decoder makes of an escaped text (the inside of a JSON string
/// literal): `None` where the text is malformed.
pub open spec fn unesc_text(t: Seq<char>) -> Option<Seq<char>>
    decreases t.len(),
{
    if t.len() == 0 {
        Option::Some(Seq::empty())
    } else if t[0] == '\\' {
        if t.len() >= 2 && (t[1] == '"' || t[1] == '\\') {
            match unesc_text(t.skip(2)) {
                Option::Some(r) => Option::Some(seq![t[1]] + r),
                Option::None => Option::None,
            }
        } else if t.len() >= 6 && t[1] == 'u' && t[2] == '0' && t[3] == '0' && hex_val(t[4]) < 16
            && hex_val(t[5]) < 16 {
            let v = hex_val(t[4]) * 16 + hex_val(t[5]);
            match unesc_text(t.skip(6)) {
                Option::Some(r) => Option::Some(seq![((v as u32) as char)] + r),
                Option::None => Option::None,
            }
        } else {
            Option::None
        }
    } else if t[0] == '"' {
        Option::None
    } else {
        match unesc_text(t.skip(1)) {
            Option::Some(r) => Option::Some(seq![t[0]] + r),
            Option::None => Option::None,
        }
    }
}

/// Escaping builds its answer from the back; this is the same text taken
/// from the front.
proof fn lemma_esc_text_first(s: Seq<char>)
    requires
        s.len() > 0,
    ensures
        esc_text(s) == esc_char(s.first()) + esc_text(s.drop_first()),
    decreases s.len(),
{
    if s.len() == 1 {
        assert(s.drop_last() =~= Seq::<char>::empty());
        assert(s.drop_first() =~= Seq::<char>::empty());
        assert(esc_text(s) =~= esc_char(s.first()) + esc_text(s.drop_first()));
    } else {
        let dl = s.drop_last();
        lemma_esc_text_first(dl);
        assert(dl.first() == s.first());
        assert(dl.drop_first() =~= s.drop_first().drop_last());
        assert(s.drop_first().last() == s.last());
        assert((esc_char(s.first()) + esc_text(s.drop_first().drop_last())) + esc_char(s.last())
            =~= esc_char(s.first()) + (esc_text(s.drop_first().drop_last()) + esc_char(s.last())));
    }
}

/// Escaping a text for a JSON string literal loses nothing: a decoder of
/// the escape sequences recovers the text exactly. This is the round-trip
/// heart of the encoding; around it the encoder only adds fixed
/// punctuation.
pub proof fn lemma_escape_round_trip(s: Seq<char>)
    ensures
        unesc_text(esc_text(s)) == Option::Some(s),
    decreases s.len(),
{
    if s.len() == 0 {
        assert(unesc_text(esc_text(s)) == Option::Some(Seq::<char>::empty()));
        assert(Seq::<char>::empty() =~= s);
    } else {
        let c = s.first();
        let rest = s.drop_first();
        lemma_esc_text_first(s);
        lemma_escape_round_trip(rest);
        let t = esc_text(s);
        if c == '"' || c == '\\' {
            assert(t == seq!['\\', c] + esc_text(rest));
            assert(t[0] == '\\' && t[1] == c);
            assert(t.skip(2) =~= esc_text(rest));
            assert(seq![c] + rest =~= s);
        } else if (c as u32) < 0x20 {
            let v = (c as u32) as int;
            assert(0 <= v < 0x20);
            assert(t == seq!['\\', 'u', '0', '0', hex_digit(v / 16), hex_digit(v % 16)] + esc_text(
                rest,
            ));
            assert(t[0] == '\\' && t[1] == 'u' && t[2] == '0' && t[3] == '0');
            assert(t[4] == hex_digit(v / 16) && t[5] == hex_digit(v % 16));
            assert(hex_val(hex_digit(v / 16)) == v / 16);
            assert(hex_val(hex_digit(v % 16)) == v % 16);
            assert(hex_val(t[4]) * 16 + hex_val(t[5]) == v);
            assert(t.skip(6) =~= esc_text(rest));
            assert(v as u32 == c as u32);
            vstd::utf8::char_u32_cast(c, v as u32);
            assert(((v as u32) as char) == c);
            assert(seq![c] + rest =~= s);
        } else {
            assert(t == seq![c] + esc_text(rest));
            assert(t[0] == c && c != '\\' && c != '"');
            assert(t.skip(1) =~= esc_text(rest));
            assert(seq![c] + rest =~= s);
        }
    }
}

/// What a decoder makes of a whole JSON string literal: the decoded text
/// between the two quotes, `None` where the literal is malformed.
pub open spec fn unesc_string(t: Seq<char>) -> Option<Seq<char>> {
    if t.len() >= 2 && t[0] == '"' && t.last() == '"' {
        unesc_text(t.subrange(1, t.len() - 1))
    } else {
        Option::None
    }
}

/// A JSON string literal decodes back to exactly the text it was built
/// from: nothing the encoder writes for a `File` name or a `Dir` key is
/// lost or distorted.
pub proof fn lemma_string_round_trip(s: Seq<char>)
    ensures
        unesc_string(json_string(s)) == Option::Some(s),
{
    let t = json_string(s);
    assert(t[0] == '"');
    assert(t.last() == '"');
    assert(t.subrange(1, t.len() - 1) =~= esc_text(s));
    lemma_escape_round_trip(s);
}

/// Appends one character to a string.
#[verifier::external_body]
fn push_char(s: &mut String, c: char)
    ensures
        final(s)@ == old(s)@.push(c),
{
    s.push(c);
}

/// Appends the hex digit for `n`.
fn push_hex_digit(s: &mut String, n: u32)
    requires
        n < 16,
    ensures
        final(s)@ == old(s)@.push(hex_digit(n as int)),
{
    let c: char = match n {
        0 => '0',
        1 => '1',
        2 => '2',
        3 => '3',
        4 => '4',
        5 => '5',
        6 => '6',
        7 => '7',
        8 => '8',
        9 => '9',
        10 => 'a',
        11 => 'b',
        12 => 'c',
        13 => 'd',
        14 => 'e',
        _ => 'f',
    };
    push_char(s, c);
}

/// Appends `text` escaped for a JSON string literal.
fn push_escaped(s: &mut String, text: &str)
    ensures
        final(s)@ == old(s)@ + esc_text(text@),
{
    let n = text.unicode_len();
    let mut i: usize = 0;
    proof {
        assert(text@.subrange(0, 0) =~= Seq::<char>::empty());
        assert(s@ + esc_text(text@.subrange(0, 0)) =~= s@);
    }
    while i < n
        invariant
            i <= n,
            n == text@.len(),
            s@ == old(s)@ + esc_text(text@.subrange(0, i as int)),
        decreases n - i,
    {
        let ghost pre = text@.subrange(0, i as int);
        let ghost cur = text@.subrange(0, i as int + 1);
        proof {
            assert(cur.drop_last() =~= pre);
            assert(cur.last() == text@[i as int]);
        }
        let c = text.get_char(i);
        if c == '"' {
            push_char(s, '\\');
            push_char(s, '"');
        } else if c == '\\' {
            push_char(s, '\\');
            push_char(s, '\\');
        } else if (c as u32) < 0x20 {
            let v = c as u32;
            push_char(s, '\\');
            push_char(s, 'u');
            push_char(s, '0');
            push_char(s, '0');
            push_hex_digit(s, v / 16);
            push_hex_digit(s, v % 16);
        } else {
            push_char(s, c);
        }
        proof {
            assert(s@ =~= old(s)@ + esc_text(cur));
        }
        i = i + 1;
    }
    proof {
        assert(text@.subrange(0, n as int) =~= text@);
    }
}

/// Appends a JSON string literal holding `text`.
fn push_json_string(s: &mut String, text: &str)
    ensures
        final(s)@ == old(s)@ + json_string(text@),
{
    push_char(s, '"');
    push_escaped(s, text);
    push_char(s, '"');
    proof {
        assert(s@ =~= old(s)@ + json_string(text@));
    }
}

/// Appends the untagged JSON of `n`.
#[verifier::loop_isolation(false)]
fn push_node(s: &mut String, n: &FSNode)
    ensures
        final(s)@ == old(s)@ + json_of_node(n@),
    decreases *n,
{
    match n {
        FSNode::File(text) => {
            push_json_string(s, text.as_str());
        },
        FSNode::Dir { key, children } => {
            push_char(s, '{');
            push_json_string(s, key.as_str());
            push_char(s, ':');
            push_char(s, '[');
            let m = children.len();
            let mut i: usize = 0;
            proof {
                crate::node::lemma_nodes_view_len(children@);
                assert(children@.subrange(0, 0) =~= Seq::<FSNode>::empty());
            }
            let ghost base = s@;
            while i < m
                invariant
                    i <= m,
                    m == children@.len(),
                    nodes_view(children@).len() == children@.len(),
                    forall|k: int|
                        0 <= k < children@.len() ==> #[trigger] nodes_view(children@)[k]
                            == crate::node::node_view(children@[k]),
                    s@ == base + json_of_children(nodes_view(children@).subrange(0, i as int)),
                decreases m - i,
            {
                let ghost pre = nodes_view(children@).subrange(0, i as int);
                let ghost cur = nodes_view(children@).subrange(0, i as int + 1);
                proof {
                    assert(cur.drop_last() =~= pre);
                    assert(cur.last() == nodes_view(children@)[i as int]);
                    assert(cur[0] == nodes_view(children@)[0]);
                }
                if i > 0 {
                    push_char(s, ',');
                }
                proof {
                    broadcast use vstd::std_specs::vec::axiom_vec_index_decreases;
                    assert(decreases_to!(*n => *children));
                    assert(decreases_to!(*children => children[i as int]));
                }
                push_node(s, &children[i]);
                proof {
                    assert(s@ =~= base + json_of_children(cur));
                }
                i = i + 1;
            }
            proof {
                assert(nodes_view(children@).subrange(0, m as int) =~= nodes_view(children@));
            }
            push_char(s, ']');
            push_char(s, '}');
            proof {
                assert(s@ =~= old(s)@ + json_of_node(n@));
            }
        },
    }
}

/// The untagged JSON encoding of a whole tree.
pub fn node_to_json(n: &FSNode) -> (r: String)
    ensures
        r@ == json_of_node(n@),
{
    let mut s = String::new();
    push_node(&mut s, n);
    proof {
        assert(s@ =~= json_of_node(n@));
    }
    s
}

/// One decimal digit.
pub open spec fn dec_digit(n: int) -> char {
    hex_digit(n)
}

/// A non-negative number in decimal, most significant digit first.
pub open spec fn dec_text(n: int) -> Seq<char>
    decreases n,
{
    if n < 10 {
        seq![dec_digit(n)]
    } else {
        dec_text(n / 10).push(dec_digit(n % 10))
    }
}

/// A JSON boolean.
pub open spec fn bool_text(b: bool) -> Seq<char> {
    if b {
        "true"@
    } else {
        "false"@
    }
}

/// Appends `n` in decimal.
fn push_u64(s: &mut String, n: u64)
    ensures
        final(s)@ == old(s)@ + dec_text(n as int),
    decreases n,
{
    if n < 10 {
        push_hex_digit(s, (n % 16) as u32);
        proof {
            assert(s@ =~= old(s)@ + dec_text(n as int));
        }
    } else {
        push_u64(s, n / 10);
        push_hex_digit(s, (n % 10) as u32);
        proof {
            assert(s@ =~= old(s)@ + dec_text(n as int));
        }
    }
}

/// Appends a JSON boolean.
fn push_bool(s: &mut String, b: bool)
    ensures
        final(s)@ == old(s)@ + bool_text(b),
{
    if b {
        s.append("true");
    } else {
        s.append("false");
    }
}

/// The JSON object for one metadata record, fields in declaration order.
pub open spec fn json_of_meta(m: FSMeta) -> Seq<char> {
    seq!['{'] + json_string("name"@) + seq![':'] + json_string(m.name@) + seq![','] + json_string(
        "extension"@,
    ) + seq![':'] + json_string(m.extension@) + seq![','] + json_string("created"@) + seq![':']
        + json_string(m.created@) + seq![','] + json_string("modified"@) + seq![':'] + json_string(
        m.modified@,
    ) + seq![','] + json_string("accessed"@) + seq![':'] + json_string(m.accessed@) + seq![',']
        + json_string("read_only"@) + seq![':'] + bool_text(m.read_only) + seq![','] + json_string(
        "size"@,
    ) + seq![':'] + dec_text(m.size as int) + seq!['}']
}

/// Appends the JSON object for one record.
#[verifier::rlimit(60)]
fn push_meta(s: &mut String, m: &FSMeta)
    ensures
        final(s)@ == old(s)@ + json_of_meta(*m),
{
    push_char(s, '{');
    push_json_string(s, "name");
    push_char(s, ':');
    push_json_string(s, m.name.as_str());
    push_char(s, ',');
    push_json_string(s, "extension");
    push_char(s, ':');
    push_json_string(s, m.extension.as_str());
    push_char(s, ',');
    push_json_string(s, "created");
    push_char(s, ':');
    push_json_string(s, m.created.as_str());
    push_char(s, ',');
    push_json_string(s, "modified");
    push_char(s, ':');
    push_json_string(s, m.modified.as_str());
    push_char(s, ',');
    push_json_string(s, "accessed");
    push_char(s, ':');
    push_json_string(s, m.accessed.as_str());
    push_char(s, ',');
    push_json_string(s, "read_only");
    push_char(s, ':');
    push_bool(s, m.read_only);
    push_char(s, ',');
    push_json_string(s, "size");
    push_char(s, ':');
    push_u64(s, m.size);
    push_char(s, '}');
    proof {
        assert(s@ =~= old(s)@ + json_of_meta(*m));
    }
}

/// The JSON object mapping each record's name to the record, in the
/// records' order.
pub open spec fn json_of_metas(v: Seq<FSMeta>) -> Seq<char>
    decreases v.len(),
{
    seq!['{'] + json_of_meta_items(v) + seq!['}']
}

/// The members of the mapping, joined with commas.
pub open spec fn json_of_meta_items(v: Seq<FSMeta>) -> Seq<char>
    decreases v.len(),
{
    if v.len() == 0 {
        Seq::empty()
    } else if v.len() == 1 {
        json_string(v[0].name@) + seq![':'] + json_of_meta(v[0])
    } else {
        json_of_meta_items(v.drop_last()) + seq![','] + json_string(v.last().name@) + seq![':']
            + json_of_meta(v.last())
    }
}

/// The JSON encoding of the inspector's whole answer: an object keyed by
/// each entry's name.
#[verifier::loop_isolation(false)]
#[verifier::rlimit(100)]
pub fn metas_to_json(v: &Vec<FSMeta>) -> (r: String)
    ensures
        r@ == json_of_metas(v@),
{
    let mut s = String::new();
    push_char(&mut s, '{');
    let ghost base = s@;
    let mut i: usize = 0;
    proof {
        assert(v@.subrange(0, 0) =~= Seq::<FSMeta>::empty());
        assert(s@ =~= base + json_of_meta_items(v@.subrange(0, 0)));
    }
    while i < v.len()
        invariant
            i <= v@.len(),
            s@ == base + json_of_meta_items(v@.subrange(0, i as int)),
        decreases v@.len() - i,
    {
        let ghost pre = v@.subrange(0, i as int);
        let ghost cur = v@.subrange(0, i as int + 1);
        proof {
            assert(cur.drop_last() =~= pre);
            assert(cur.last() == v@[i as int]);
            assert(cur[0] == v@[0]);
        }
        if i > 0 {
            push_char(&mut s, ',');
        }
        push_json_string(&mut s, v[i].name.as_str());
        push_char(&mut s, ':');
        push_meta(&mut s, &v[i]);
        proof {
            assert(s@ =~= base + json_of_meta_items(cur));
        }
        i = i + 1;
    }
    proof {
        assert(v@.subrange(0, v@.len() as int) =~= v@);
    }
    push_char(&mut s, '}');
    proof {
        assert(s@ =~= json_of_metas(v@));
    }
    s
}

} // verus!
