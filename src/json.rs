//! A JSON document model and field lookups on it.
use crate::digest::hex_digit;
use crate::order::{
    bytes_le, insert_by, lemma_bytes_le_antisym, lemma_bytes_le_refl, lemma_bytes_le_total,
    lemma_bytes_le_trans, lemma_insert_at, lemma_sort_by_le, sort_by_le,
    str_le, total_preorder,
};
use vstd::relations::sorted_by;
use vstd::utf8::encode_utf8_decode_utf8;
use vstd::prelude::*;
use vstd::utf8::encode_utf8;

verus! {

/// A JSON value. Numbers are kept as their JSON text; an object keeps its
/// members in order, with keys expected to be distinct.
#[derive(Debug)]
pub enum JsonValue {
    Null,
    Bool(bool),
    Number(String),
    Str(String),
    Array(Vec<JsonValue>),
    Object(Vec<(String, JsonValue)>),
}

/// The value of the first member named `key`.
pub open spec fn lookup(members: Seq<(String, JsonValue)>, key: Seq<char>) -> Option<JsonValue>
    decreases members.len(),
{
    if members.len() == 0 {
        None
    } else if members[0].0@ == key {
        Some(members[0].1)
    } else {
        lookup(members.drop_first(), key)
    }
}

/// The member `key` of an object; nothing for any other value.
pub open spec fn field(v: JsonValue, key: Seq<char>) -> Option<JsonValue> {
    match v {
        JsonValue::Object(members) => lookup(members@, key),
        _ => None,
    }
}

/// The member `key` when it is a string.
pub open spec fn field_str(v: JsonValue, key: Seq<char>) -> Option<Seq<char>> {
    match field(v, key) {
        Some(JsonValue::Str(s)) => Some(s@),
        _ => None,
    }
}

/// The member `key` when it is a boolean.
pub open spec fn field_bool(v: JsonValue, key: Seq<char>) -> Option<bool> {
    match field(v, key) {
        Some(JsonValue::Bool(b)) => Some(b),
        _ => None,
    }
}

/// The member `key` is present and is a number.
pub open spec fn field_is_number(v: JsonValue, key: Seq<char>) -> bool {
    field(v, key) matches Some(JsonValue::Number(_))
}

/// `s` holds exactly the characters of `lit`.
pub fn str_is(s: &str, lit: &str) -> (r: bool)
    ensures
        r == (s@ == lit@),
{
    s.to_owned() == lit.to_owned()
}

/// Looks up the first member of an object named `key`.
pub fn get<'a>(v: &'a JsonValue, key: &str) -> (r: Option<&'a JsonValue>)
    ensures
        r matches Some(x) ==> field(*v, key@) == Some(*x),
        r is None ==> field(*v, key@) is None,
{
    match v {
        JsonValue::Object(members) => {
            let mut i: usize = 0;
            assert(members@.subrange(0, members@.len() as int) =~= members@);
            while i < members.len()
                invariant
                    i <= members@.len(),
                    field(*v, key@) == lookup(members@, key@),
                    lookup(members@, key@) == lookup(members@.subrange(i as int, members@.len() as int), key@),
                decreases members@.len() - i,
            {
                let ghost rest = members@.subrange(i as int, members@.len() as int);
                assert(rest.drop_first() =~= members@.subrange(i + 1, members@.len() as int));
                let m = &members[i];
                if str_is(m.0.as_str(), key) {
                    assert(rest[0] == *m);
                    assert(lookup(rest, key@) == Some(m.1));
                    return Some(&m.1);
                }
                i = i + 1;
            }
            None
        }
        _ => None,
    }
}

/// The member `key` when it is a string.
pub fn get_str<'a>(v: &'a JsonValue, key: &str) -> (r: Option<&'a String>)
    ensures
        r matches Some(s) ==> field_str(*v, key@) == Some(s@),
        r is None ==> field_str(*v, key@) is None,
{
    match get(v, key) {
        Some(JsonValue::Str(s)) => Some(s),
        _ => None,
    }
}

/// The member `key` when it is a boolean.
pub fn get_bool(v: &JsonValue, key: &str) -> (r: Option<bool>)
    ensures
        r == field_bool(*v, key@),
{
    match get(v, key) {
        Some(JsonValue::Bool(b)) => Some(*b),
        _ => None,
    }
}

/// The member `key` is present and is a number.
pub fn has_number(v: &JsonValue, key: &str) -> (r: bool)
    ensures
        r == field_is_number(*v, key@),
{
    match get(v, key) {
        Some(JsonValue::Number(_)) => true,
        _ => false,
    }
}

/// How serde_json writes one character inside a string literal: quote and
/// backslash escaped, the five short control escapes, other controls below
/// 0x20 as `\u00xx` in lowercase hex, everything else as it is.
pub open spec fn escape_char(c: char) -> Seq<char> {
    if c == '"' {
        seq!['\\', '"']
    } else if c == '\\' {
        seq!['\\', '\\']
    } else if c == '\u{8}' {
        seq!['\\', 'b']
    } else if c == '\t' {
        seq!['\\', 't']
    } else if c == '\n' {
        seq!['\\', 'n']
    } else if c == '\u{c}' {
        seq!['\\', 'f']
    } else if c == '\r' {
        seq!['\\', 'r']
    } else if (c as u32) < 32 {
        seq!['\\', 'u', '0', '0', hex_digit(((c as u32) / 16) as u8), hex_digit(((c as u32) % 16) as u8)]
    } else {
        seq![c]
    }
}

/// The escaped characters of `s`, in order.
pub open spec fn escaped(s: Seq<char>) -> Seq<char>
    decreases s.len(),
{
    if s.len() == 0 {
        Seq::empty()
    } else {
        escaped(s.drop_last()) + escape_char(s.last())
    }
}

/// The JSON string literal for `s`: quotes around its escaped characters.
#[verifier::opaque]
pub open spec fn json_quoted(s: Seq<char>) -> Seq<char> {
    seq!['"'] + escaped(s) + seq!['"']
}

/// Relies on serde_json's `Display` for `Value::String`: the compact string
/// literal that its escaping writes for `s`.
#[verifier::external_body]
pub(crate) fn quote(s: &str) -> (r: String)
    ensures
        r@ == json_quoted(s@),
{
    serde_json::Value::from(s).to_string()
}

/// The compact JSON text of a value, members and items in their stored order.
pub open spec fn json_text(v: JsonValue) -> Seq<char>
    decreases v,
{
    match v {
        JsonValue::Null => "null"@,
        JsonValue::Bool(b) => if b { "true"@ } else { "false"@ },
        JsonValue::Number(n) => n@,
        JsonValue::Str(s) => json_quoted(s@),
        JsonValue::Array(items) => "["@ + items_text(items@) + "]"@,
        JsonValue::Object(members) => "{"@ + members_text(members@) + "}"@,
    }
}

/// Items' texts joined by commas.
pub open spec fn items_text(items: Seq<JsonValue>) -> Seq<char>
    decreases items,
{
    if items.len() == 0 {
        Seq::empty()
    } else if items.len() == 1 {
        json_text(items[0])
    } else {
        items_text(items.subrange(0, items.len() - 1)) + ","@ + json_text(items[items.len() - 1])
    }
}

/// One member's text: its quoted key, a colon, its value's text.
pub open spec fn member_text(m: (String, JsonValue)) -> Seq<char>
    decreases m,
{
    json_quoted(m.0@) + ":"@ + json_text(m.1)
}

/// Members' texts joined by commas.
pub open spec fn members_text(members: Seq<(String, JsonValue)>) -> Seq<char>
    decreases members,
{
    if members.len() == 0 {
        Seq::empty()
    } else if members.len() == 1 {
        member_text(members[0])
    } else {
        members_text(members.subrange(0, members.len() - 1)) + ","@ + member_text(
            members[members.len() - 1],
        )
    }
}

/// Appends the compact JSON text of `v` to `out`.
pub fn write_json(v: &JsonValue, out: &mut String)
    ensures
        final(out)@ == old(out)@ + json_text(*v),
    decreases v,
{
    match v {
        JsonValue::Null => out.append("null"),
        JsonValue::Bool(b) => if *b {
            out.append("true")
        } else {
            out.append("false")
        },
        JsonValue::Number(n) => out.append(n.as_str()),
        JsonValue::Str(s) => {
            let q = quote(s.as_str());
            out.append(q.as_str());
        },
        JsonValue::Array(items) => {
            let ghost start = out@;
            out.append("[");
            let mut i: usize = 0;
            while i < items.len()
                invariant
                    i <= items@.len(),
                    out@ == start + "["@ + items_text(items@.subrange(0, i as int)),
                    forall|k: int| 0 <= k < items@.len() ==> decreases_to!(*v => #[trigger] items@[k]),
                decreases items@.len() - i,
            {
                let ghost before = out@;
                if i > 0 {
                    out.append(",");
                }
                write_json(&items[i], out);
                assert(items@.subrange(0, i + 1).subrange(0, i as int) =~= items@.subrange(0, i as int));
                i = i + 1;
            }
            assert(items@.subrange(0, items@.len() as int) =~= items@);
            out.append("]");
        },
        JsonValue::Object(members) => {
            let ghost start = out@;
            out.append("{");
            let mut i: usize = 0;
            while i < members.len()
                invariant
                    i <= members@.len(),
                    out@ == start + "{"@ + members_text(members@.subrange(0, i as int)),
                    forall|k: int| 0 <= k < members@.len() ==> decreases_to!(*v => #[trigger] members@[k].1),
                decreases members@.len() - i,
            {
                let ghost before = out@;
                if i > 0 {
                    out.append(",");
                }
                let ghost mid = out@;
                let m = &members[i];
                let q = quote(m.0.as_str());
                out.append(q.as_str());
                out.append(":");
                write_json(&m.1, out);
                let ghost sub = members@.subrange(0, i + 1);
                assert(sub.subrange(0, i as int) =~= members@.subrange(0, i as int));
                assert(sub[i as int] == *m);
                assert(out@ =~= mid + member_text(*m));
                if i == 0 {
                    assert(out@ =~= start + "{"@ + members_text(sub));
                } else {
                    assert(mid =~= before + ","@);
                    assert(out@ =~= start + "{"@ + members_text(sub));
                }
                i = i + 1;
            }
            assert(members@.subrange(0, members@.len() as int) =~= members@);
            out.append("}");
        },
    }
}

/// The compact JSON text of `v`.
pub fn to_json_string(v: &JsonValue) -> (r: String)
    ensures
        r@ == json_text(*v),
{
    let mut out = String::new();
    write_json(v, &mut out);
    assert(out@ =~= json_text(*v));
    out
}

/// Orders member positions by the bytes of their keys.
pub open spec fn member_le(members: Seq<(String, JsonValue)>) -> spec_fn(int, int) -> bool {
    |i: int, j: int| bytes_le(encode_utf8(members[i].0@), encode_utf8(members[j].0@))
}

/// The member positions of an object in canonical (key-sorted, stable) order.
pub open spec fn member_order(members: Seq<(String, JsonValue)>) -> Seq<int> {
    sort_by_le(members.len(), member_le(members))
}

/// The canonical JSON text of a value: compact, every object's members
/// sorted by key, array items kept in order.
pub open spec fn canonical_text(v: JsonValue) -> Seq<char>
    decreases v, 0nat,
{
    match v {
        JsonValue::Array(items) => "["@ + canonical_items(items@) + "]"@,
        JsonValue::Object(members) => "{"@ + canonical_members(members@, member_order(members@))
            + "}"@,
        _ => json_text(v),
    }
}

/// Canonical texts of array items joined by commas.
pub open spec fn canonical_items(items: Seq<JsonValue>) -> Seq<char>
    decreases items, 0nat,
{
    if items.len() == 0 {
        Seq::empty()
    } else if items.len() == 1 {
        canonical_text(items[0])
    } else {
        canonical_items(items.subrange(0, items.len() - 1)) + ","@ + canonical_text(
            items[items.len() - 1],
        )
    }
}

/// The members at positions `order`, each as quoted key, colon and canonical
/// value text, joined by commas.
pub open spec fn canonical_members(members: Seq<(String, JsonValue)>, order: Seq<int>) -> Seq<char>
    decreases members, order.len(),
{
    if order.len() == 0 {
        Seq::empty()
    } else {
        let k = order.last();
        let m = if 0 <= k < members.len() {
            json_quoted(members[k].0@) + ":"@ + canonical_text(members[k].1)
        } else {
            Seq::empty()
        };
        if order.len() == 1 {
            m
        } else {
            canonical_members(members, order.drop_last()) + ","@ + m
        }
    }
}

/// Member positions of an object in canonical order.
fn sorted_member_positions(members: &Vec<(String, JsonValue)>) -> (r: Vec<usize>)
    ensures
        r@.len() == members@.len(),
        member_order(members@).len() == members@.len(),
        forall|k: int| 0 <= k < r@.len() ==> r@[k] as int == member_order(members@)[k],
        forall|k: int| 0 <= k < r@.len() ==> r@[k] < members@.len(),
{
    let ghost le = member_le(members@);
    let mut order: Vec<usize> = Vec::new();
    let ghost mut g: Seq<int> = Seq::empty();
    let mut i: usize = 0;
    while i < members.len()
        invariant
            i <= members@.len(),
            le == member_le(members@),
            g == sort_by_le(i as nat, le),
            order@.len() == i,
            g.len() == i,
            forall|k: int| 0 <= k < i ==> order@[k] as int == #[trigger] g[k],
            forall|k: int| 0 <= k < i ==> 0 <= #[trigger] g[k] < i,
        decreases members@.len() - i,
    {
        let mut j: usize = order.len();
        let mut found = false;
        while j > 0 && !found
            invariant
                j <= order@.len(),
                order@.len() == i,
                i < members@.len(),
                g.len() == i,
                le == member_le(members@),
                forall|k: int| 0 <= k < i ==> order@[k] as int == #[trigger] g[k],
                forall|k: int| 0 <= k < i ==> 0 <= #[trigger] g[k] < i,
                forall|k: int| j <= k < i ==> !le(#[trigger] g[k], i as int),
                found ==> j > 0 && le(g[j - 1], i as int),
            decreases j + (if found { 0int } else { 1int }),
        {
            assert(order@[j - 1] as int == g[j - 1]);
            let p = order[j - 1];
            if str_le(members[p].0.as_str(), members[i].0.as_str()) {
                found = true;
            } else {
                j = j - 1;
            }
        }
        proof {
            lemma_insert_at(g, i as int, le, j as int);
        }
        let ghost og = g;
        let ghost oo = order@;
        order.insert(j, i);
        proof {
            g = g.take(j as int).push(i as int) + g.skip(j as int);
        }
        assert forall|k: int| 0 <= k < i + 1 implies order@[k] as int == #[trigger] g[k] && 0 <= g[k] < i + 1 by {
            if k < j {
                assert(g[k] == og[k]);
                assert(order@[k] == oo[k]);
            } else if k == j {
            } else {
                assert(g[k] == og[k - 1]);
                assert(order@[k] == oo[k - 1]);
            }
        }
        i = i + 1;
    }
    assert forall|k: int| 0 <= k < order@.len() implies order@[k] < members@.len() by {
        assert(order@[k] as int == g[k]);
    }
    order
}

/// Appends the canonical JSON text of `v` to `out`.
pub fn write_canonical(v: &JsonValue, out: &mut String)
    ensures
        final(out)@ == old(out)@ + canonical_text(*v),
    decreases v,
{
    match v {
        JsonValue::Array(items) => {
            let ghost start = out@;
            out.append("[");
            let mut i: usize = 0;
            while i < items.len()
                invariant
                    i <= items@.len(),
                    out@ == start + "["@ + canonical_items(items@.subrange(0, i as int)),
                    forall|k: int| 0 <= k < items@.len() ==> decreases_to!(*v => #[trigger] items@[k]),
                decreases items@.len() - i,
            {
                if i > 0 {
                    out.append(",");
                }
                write_canonical(&items[i], out);
                assert(items@.subrange(0, i + 1).subrange(0, i as int) =~= items@.subrange(0, i as int));
                i = i + 1;
            }
            assert(items@.subrange(0, items@.len() as int) =~= items@);
            out.append("]");
        },
        JsonValue::Object(members) => {
            let ghost start = out@;
            let order = sorted_member_positions(members);
            let ghost g = member_order(members@);
            out.append("{");
            let mut i: usize = 0;
            while i < order.len()
                invariant
                    i <= order@.len(),
                    order@.len() == members@.len(),
                    g == member_order(members@),
                    g.len() == members@.len(),
                    forall|k: int| 0 <= k < order@.len() ==> order@[k] as int == #[trigger] g[k],
                    forall|k: int| 0 <= k < order@.len() ==> order@[k] < members@.len(),
                    out@ == start + "{"@ + canonical_members(members@, g.take(i as int)),
                    forall|k: int| 0 <= k < members@.len() ==> decreases_to!(*v => #[trigger] members@[k].1),
                decreases order@.len() - i,
            {
                let ghost before = out@;
                if i > 0 {
                    out.append(",");
                }
                let ghost mid = out@;
                assert(order@[i as int] as int == g[i as int]);
                let m = &members[order[i]];
                let q = quote(m.0.as_str());
                out.append(q.as_str());
                out.append(":");
                write_canonical(&m.1, out);
                let ghost t = g.take(i + 1);
                assert(t.drop_last() =~= g.take(i as int));
                assert(t.last() == order@[i as int] as int);
                assert(out@ =~= mid + (json_quoted(m.0@) + ":"@ + canonical_text(m.1)));
                if i == 0 {
                    assert(out@ =~= start + "{"@ + canonical_members(members@, t));
                } else {
                    assert(mid =~= before + ","@);
                    assert(out@ =~= start + "{"@ + canonical_members(members@, t));
                }
                i = i + 1;
            }
            assert(g.take(i as int) =~= g);
            out.append("}");
        },
        _ => write_json(v, out),
    }
}

/// The canonical JSON text of `v`.
pub fn canonical_json(v: &JsonValue) -> (r: String)
    ensures
        r@ == canonical_text(*v),
{
    let mut out = String::new();
    write_canonical(v, &mut out);
    assert(out@ =~= canonical_text(*v));
    out
}

/// No two members share a key.
pub open spec fn distinct_keys(members: Seq<(String, JsonValue)>) -> bool {
    forall|i: int, j: int|
        0 <= i < members.len() && 0 <= j < members.len() && i != j ==> (#[trigger] members[i]).0@
            != (#[trigger] members[j]).0@
}

/// Two sorted sequences without repeats that hold the same elements are equal.
proof fn lemma_sorted_keys_unique(x: Seq<Seq<u8>>, y: Seq<Seq<u8>>)
    requires
        sorted_by(x, |a: Seq<u8>, b: Seq<u8>| bytes_le(a, b)),
        sorted_by(y, |a: Seq<u8>, b: Seq<u8>| bytes_le(a, b)),
        x.no_duplicates(),
        y.no_duplicates(),
        forall|e: Seq<u8>| x.contains(e) <==> y.contains(e),
    ensures
        x == y,
    decreases x.len(),
{
    let bl = |a: Seq<u8>, b: Seq<u8>| bytes_le(a, b);
    if x.len() == 0 {
        if y.len() > 0 {
            assert(y.contains(y[0]));
        }
        assert(x =~= y);
    } else {
        assert(x.contains(x[0]));
        if y.len() == 0 {
            assert(false);
        }
        assert(y.contains(y[0]));
        let i = choose|i: int| 0 <= i < y.len() && y[i] == x[0];
        let k = choose|k: int| 0 <= k < x.len() && x[k] == y[0];
        if k > 0 {
            assert(bl(x[0], x[k]));
        } else {
            lemma_bytes_le_refl(x[0]);
        }
        if i > 0 {
            assert(bl(y[0], y[i]));
        } else {
            lemma_bytes_le_refl(y[0]);
        }
        assert(bytes_le(x[0], y[0]));
        assert(bytes_le(y[0], x[0]));
        lemma_bytes_le_antisym(x[0], y[0]);
        let xt = x.drop_first();
        let yt = y.drop_first();
        assert forall|e: Seq<u8>| xt.contains(e) <==> yt.contains(e) by {
            if xt.contains(e) {
                let p = choose|p: int| 0 <= p < xt.len() && xt[p] == e;
                assert(x[p + 1] == e);
                assert(x.contains(e));
                assert(e != x[0]);
                let q = choose|q: int| 0 <= q < y.len() && y[q] == e;
                assert(q != 0);
                assert(yt[q - 1] == e);
            }
            if yt.contains(e) {
                let p = choose|p: int| 0 <= p < yt.len() && yt[p] == e;
                assert(y[p + 1] == e);
                assert(y.contains(e));
                assert(e != y[0]);
                let q = choose|q: int| 0 <= q < x.len() && x[q] == e;
                assert(q != 0);
                assert(xt[q - 1] == e);
            }
        }
        assert(sorted_by(xt, bl));
        assert(sorted_by(yt, bl));
        lemma_sorted_keys_unique(xt, yt);
        assert(x =~= seq![x[0]] + xt);
        assert(y =~= seq![y[0]] + yt);
    }
}

/// Canonical member texts agree when the members they list agree.
proof fn lemma_canonical_members_eq(
    ma: Seq<(String, JsonValue)>,
    oa: Seq<int>,
    mb: Seq<(String, JsonValue)>,
    ob: Seq<int>,
    k: int,
)
    requires
        0 <= k <= oa.len(),
        oa.len() == ob.len(),
        forall|i: int|
            0 <= i < oa.len() ==> 0 <= #[trigger] oa[i] < ma.len() && 0 <= ob[i] < mb.len() && ma[oa[i]].0@
                == mb[ob[i]].0@ && canonical_text(ma[oa[i]].1) == canonical_text(mb[ob[i]].1),
    ensures
        canonical_members(ma, oa.take(k)) == canonical_members(mb, ob.take(k)),
    decreases k,
{
    if k > 0 {
        lemma_canonical_members_eq(ma, oa, mb, ob, k - 1);
        assert(oa.take(k).drop_last() =~= oa.take(k - 1));
        assert(ob.take(k).drop_last() =~= ob.take(k - 1));
        assert(oa.take(k).last() == oa[k - 1]);
        assert(ob.take(k).last() == ob[k - 1]);
    }
}

/// The position order of an object's members is sorted by key and lists each
/// position once.
proof fn lemma_member_order(ms: Seq<(String, JsonValue)>)
    ensures
        member_order(ms).len() == ms.len(),
        sorted_by(member_order(ms), member_le(ms)),
        member_order(ms).no_duplicates(),
        forall|k: int| 0 <= k < ms.len() ==> 0 <= #[trigger] member_order(ms)[k] < ms.len(),
        forall|i: int| 0 <= i < ms.len() ==> #[trigger] member_order(ms).contains(i),
{
    let le = member_le(ms);
    assert forall|x: int, y: int| #[trigger] le(x, y) || #[trigger] le(y, x) by {
        lemma_bytes_le_total(encode_utf8(ms[x].0@), encode_utf8(ms[y].0@));
    }
    assert forall|x: int, y: int, z: int| #[trigger] le(x, y) && #[trigger] le(y, z) implies le(x, z) by {
        let a = encode_utf8(ms[x].0@);
        let b = encode_utf8(ms[y].0@);
        let c = encode_utf8(ms[z].0@);
        lemma_bytes_le_trans(a, b, c);
    }
    assert(total_preorder(le));
    lemma_sort_by_le(ms.len(), le);
}

/// The keys of an object's members, in canonical order, as bytes.
pub open spec fn ordered_keys(ms: Seq<(String, JsonValue)>) -> Seq<Seq<u8>> {
    Seq::new(ms.len(), |k: int| encode_utf8(ms[member_order(ms)[k]].0@))
}

/// With distinct keys, the ordered key bytes are sorted, repeat-free, and
/// are exactly the members' key bytes.
proof fn lemma_ordered_keys(ms: Seq<(String, JsonValue)>)
    requires
        distinct_keys(ms),
    ensures
        sorted_by(ordered_keys(ms), |a: Seq<u8>, b: Seq<u8>| bytes_le(a, b)),
        ordered_keys(ms).no_duplicates(),
        forall|e: Seq<u8>|
            ordered_keys(ms).contains(e) <==> exists|i: int|
                0 <= i < ms.len() && e == encode_utf8(#[trigger] ms[i].0@),
{
    lemma_member_order(ms);
    let o = member_order(ms);
    let ks = ordered_keys(ms);
    assert forall|a: int, b: int| 0 <= a < b < ks.len() implies #[trigger] bytes_le(ks[a], ks[b]) by {
        assert(member_le(ms)(o[a], o[b]));
    }
    assert forall|a: int, b: int| 0 <= a < ks.len() && 0 <= b < ks.len() && a != b implies ks[a] != ks[b] by {
        assert(o[a] != o[b]);
        assert(ms[o[a]].0@ != ms[o[b]].0@);
        encode_utf8_decode_utf8(ms[o[a]].0@);
        encode_utf8_decode_utf8(ms[o[b]].0@);
    }
    assert forall|e: Seq<u8>| ks.contains(e) <==> exists|i: int|
        0 <= i < ms.len() && e == encode_utf8(#[trigger] ms[i].0@) by {
        if ks.contains(e) {
            let k = choose|k: int| 0 <= k < ks.len() && ks[k] == e;
            assert(0 <= o[k] < ms.len());
            assert(e == encode_utf8(ms[o[k]].0@));
        }
        if exists|i: int| 0 <= i < ms.len() && e == encode_utf8(#[trigger] ms[i].0@) {
            let i = choose|i: int| 0 <= i < ms.len() && e == encode_utf8(#[trigger] ms[i].0@);
            assert(o.contains(i));
            let k = choose|k: int| 0 <= k < o.len() && o[k] == i;
            assert(ks[k] == e);
        }
    }
}

/// `a` and `b` are the same document up to the order of object members:
/// arrays match item by item, objects (keys distinct) have the same keys with
/// matching values, and other values are equal.
pub open spec fn same_doc(a: JsonValue, b: JsonValue) -> bool
    decreases a,
{
    match a {
        JsonValue::Array(xs) => match b {
            JsonValue::Array(ys) => {
                &&& xs@.len() == ys@.len()
                &&& forall|k: int| 0 <= k < xs@.len() ==> same_doc(#[trigger] xs@[k], ys@[k])
            },
            _ => false,
        },
        JsonValue::Object(ma) => match b {
            JsonValue::Object(mb) => {
                &&& distinct_keys(ma@)
                &&& distinct_keys(mb@)
                &&& ma@.len() == mb@.len()
                &&& forall|i: int|
                    0 <= i < ma@.len() ==> exists|j: int|
                        0 <= j < mb@.len() && (#[trigger] ma@[i]).0@ == mb@[j].0@ && same_doc(
                            ma@[i].1,
                            mb@[j].1,
                        )
                &&& forall|j: int|
                    0 <= j < mb@.len() ==> exists|i: int|
                        0 <= i < ma@.len() && ma@[i].0@ == (#[trigger] mb@[j]).0@
            },
            _ => false,
        },
        _ => a == b,
    }
}

/// Items with equal canonical texts, pairwise, join to equal texts.
proof fn lemma_canonical_items_eq(xs: Seq<JsonValue>, ys: Seq<JsonValue>)
    requires
        xs.len() == ys.len(),
        forall|k: int| 0 <= k < xs.len() ==> canonical_text(#[trigger] xs[k]) == canonical_text(ys[k]),
    ensures
        canonical_items(xs) == canonical_items(ys),
    decreases xs.len(),
{
    if xs.len() > 1 {
        let xt = xs.subrange(0, xs.len() - 1);
        let yt = ys.subrange(0, ys.len() - 1);
        assert forall|k: int| 0 <= k < xt.len() implies canonical_text(#[trigger] xt[k]) == canonical_text(
            yt[k],
        ) by {
            assert(xt[k] == xs[k]);
            assert(yt[k] == ys[k]);
        }
        lemma_canonical_items_eq(xt, yt);
    }
}

/// Two documents that differ only in the order of object members (keys
/// distinct within each object) have the same canonical text, at any depth.
pub proof fn lemma_canonical_key_order(a: JsonValue, b: JsonValue)
    requires
        same_doc(a, b),
    ensures
        canonical_text(a) == canonical_text(b),
    decreases a,
{
    match a {
        JsonValue::Array(xs) => {
            let ys = b->Array_0@;
            assert forall|k: int| 0 <= k < xs@.len() implies canonical_text(#[trigger] xs@[k])
                == canonical_text(ys[k]) by {
                lemma_canonical_key_order(xs@[k], ys[k]);
            }
            lemma_canonical_items_eq(xs@, ys);
        },
        JsonValue::Object(members) => {
            let ma = members@;
            let mb = b->Object_0@;
            lemma_member_order(ma);
            lemma_member_order(mb);
            lemma_ordered_keys(ma);
            lemma_ordered_keys(mb);
            let oa = member_order(ma);
            let ob = member_order(mb);
            let ka = ordered_keys(ma);
            let kb = ordered_keys(mb);
            assert forall|e: Seq<u8>| ka.contains(e) <==> kb.contains(e) by {
                if ka.contains(e) {
                    let i = choose|i: int| 0 <= i < ma.len() && e == encode_utf8(#[trigger] ma[i].0@);
                    let j = choose|j: int|
                        0 <= j < mb.len() && (#[trigger] ma[i]).0@ == mb[j].0@ && same_doc(ma[i].1, mb[j].1);
                    assert(e == encode_utf8(mb[j].0@));
                }
                if kb.contains(e) {
                    let j = choose|j: int| 0 <= j < mb.len() && e == encode_utf8(#[trigger] mb[j].0@);
                    let i = choose|i: int| 0 <= i < ma.len() && ma[i].0@ == (#[trigger] mb[j]).0@;
                    assert(e == encode_utf8(ma[i].0@));
                }
            }
            lemma_sorted_keys_unique(ka, kb);
            assert forall|k: int| 0 <= k < oa.len() implies 0 <= #[trigger] oa[k] < ma.len() && 0 <= ob[k]
                < mb.len() && ma[oa[k]].0@ == mb[ob[k]].0@ && canonical_text(ma[oa[k]].1)
                == canonical_text(mb[ob[k]].1) by {
                assert(ka[k] == kb[k]);
                let p = oa[k];
                encode_utf8_decode_utf8(ma[p].0@);
                encode_utf8_decode_utf8(mb[ob[k]].0@);
                assert(ma[p].0@ == mb[ob[k]].0@);
                let j = choose|j: int|
                    0 <= j < mb.len() && (#[trigger] ma[p]).0@ == mb[j].0@ && same_doc(ma[p].1, mb[j].1);
                assert(j == ob[k]);
                lemma_canonical_key_order(ma[p].1, mb[j].1);
            }
            lemma_canonical_members_eq(ma, oa, mb, ob, oa.len() as int);
            assert(oa.take(oa.len() as int) =~= oa);
            assert(ob.take(ob.len() as int) =~= ob);
        },
        _ => {},
    }
}

/// Every object in `v`, at any depth, lists its members in strictly
/// ascending key order.
pub open spec fn deep_sorted(v: JsonValue) -> bool
    decreases v,
{
    match v {
        JsonValue::Array(items) => forall|k: int|
            0 <= k < items@.len() ==> deep_sorted(#[trigger] items@[k]),
        JsonValue::Object(members) => {
            &&& forall|i: int, j: int|
                0 <= i < j < members@.len() ==> bytes_le(
                    encode_utf8(#[trigger] members@[i].0@),
                    encode_utf8(#[trigger] members@[j].0@),
                )
            &&& forall|k: int| 0 <= k < members@.len() ==> deep_sorted(#[trigger] members@[k].1)
        },
        _ => true,
    }
}

/// Positions already in order stay in place.
proof fn lemma_sort_sorted_is_identity(n: nat, le: spec_fn(int, int) -> bool)
    requires
        forall|i: int, j: int| 0 <= i < j < n ==> #[trigger] le(i, j),
    ensures
        sort_by_le(n, le) == Seq::new(n, |i: int| i),
    decreases n,
{
    if n > 0 {
        lemma_sort_sorted_is_identity((n - 1) as nat, le);
        let s = Seq::new((n - 1) as nat, |i: int| i);
        if n > 1 {
            assert(s.last() == n - 2);
            assert(le(n - 2, n - 1));
        }
        assert(insert_by(s, n - 1, le) =~= Seq::new(n, |i: int| i));
    }
}

/// Items whose canonical and plain texts agree join to agreeing texts.
proof fn lemma_items_text_same(items: Seq<JsonValue>)
    requires
        forall|k: int| 0 <= k < items.len() ==> canonical_text(#[trigger] items[k]) == json_text(items[k]),
    ensures
        canonical_items(items) == items_text(items),
    decreases items.len(),
{
    if items.len() > 1 {
        let t = items.subrange(0, items.len() - 1);
        assert forall|k: int| 0 <= k < t.len() implies canonical_text(#[trigger] t[k]) == json_text(t[k]) by {
            assert(t[k] == items[k]);
        }
        lemma_items_text_same(t);
    }
}

/// Members in key order, with values whose canonical and plain texts
/// agree, give the same canonical and plain texts.
proof fn lemma_members_text_same(ms: Seq<(String, JsonValue)>, k: int)
    requires
        0 <= k <= ms.len(),
        forall|i: int| 0 <= i < ms.len() ==> canonical_text(#[trigger] ms[i].1) == json_text(ms[i].1),
    ensures
        canonical_members(ms, Seq::new(k as nat, |i: int| i)) == members_text(ms.subrange(0, k)),
    decreases k,
{
    if k > 0 {
        lemma_members_text_same(ms, k - 1);
        let o = Seq::new(k as nat, |i: int| i);
        assert(o.drop_last() =~= Seq::new((k - 1) as nat, |i: int| i));
        let t = ms.subrange(0, k);
        assert(t.subrange(0, k - 1) =~= ms.subrange(0, k - 1));
        assert(t[k - 1] == ms[k - 1]);
        assert(o.last() == k - 1);
        assert(canonical_text(ms[k - 1].1) == json_text(ms[k - 1].1));
        assert(member_text(ms[k - 1]) == json_quoted(ms[k - 1].0@) + ":"@ + json_text(ms[k - 1].1));
        if k == 1 {
            assert(members_text(t) == member_text(t[0]));
        } else {
            assert(members_text(t) == members_text(t.subrange(0, k - 1)) + ","@ + member_text(t[k - 1]));
        }
    }
}

/// Canonicalizing a document whose objects are already key-sorted changes
/// nothing: its canonical text is its plain compact text, so canonicalizing
/// canonical output again gives the same bytes.
pub proof fn lemma_canonical_of_sorted(v: JsonValue)
    requires
        deep_sorted(v),
    ensures
        canonical_text(v) == json_text(v),
    decreases v,
{
    match v {
        JsonValue::Array(items) => {
            assert forall|k: int| 0 <= k < items@.len() implies canonical_text(#[trigger] items@[k])
                == json_text(items@[k]) by {
                lemma_canonical_of_sorted(items@[k]);
            }
            lemma_items_text_same(items@);
        },
        JsonValue::Object(members) => {
            let ms = members@;
            assert forall|k: int| 0 <= k < ms.len() implies canonical_text(#[trigger] ms[k].1) == json_text(
                ms[k].1,
            ) by {
                lemma_canonical_of_sorted(ms[k].1);
            }
            lemma_sort_sorted_is_identity(ms.len(), member_le(ms));
            lemma_members_text_same(ms, ms.len() as int);
            assert(ms.subrange(0, ms.len() as int) =~= ms);
        },
        _ => {},
    }
}

} // verus!
