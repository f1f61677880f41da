//! The store's text format: one `label:flag` line per item.
use vstd::prelude::*;
use crate::list::{EntryView, TodoList, labels_unique, lemma_map_of_cons, map_of};

verus! {

/// The token that a flag is written as.
pub open spec fn flag_text(b: bool) -> Seq<char> {
    if b {
        seq!['t', 'r', 'u', 'e']
    } else {
        seq!['f', 'a', 'l', 's', 'e']
    }
}

/// A label that the format can hold: no separator and no line break.
pub open spec fn valid_label(l: Seq<char>) -> bool {
    !l.contains(':') && !l.contains('\n')
}

/// One entry as a line.
pub open spec fn encode_entry(e: EntryView) -> Seq<char> {
    e.0 + seq![':'] + flag_text(e.1) + seq!['\n']
}

/// The entries as text, one line each, in order.
pub open spec fn encode(es: Seq<EntryView>) -> Seq<char>
    decreases es.len(),
{
    if es.len() == 0 {
        Seq::empty()
    } else {
        encode_entry(es[0]) + encode(es.drop_first())
    }
}

/// `text` is the encoding of the mapping `m`, its entries taken in some order.
pub open spec fn encodes(text: Seq<char>, m: Map<Seq<char>, bool>) -> bool {
    exists|es: Seq<EntryView>| labels_unique(es) && map_of(es) == m && text == encode(es)
}

/// The position of the first `c` in `s`, or the length of `s` when there is none.
pub open spec fn first_index(s: Seq<char>, c: char) -> nat
    decreases s.len(),
{
    if s.len() == 0 {
        0
    } else if s[0] == c {
        0
    } else {
        1 + first_index(s.drop_first(), c)
    }
}

/// The flag that a token stands for, if it is one.
pub open spec fn parse_flag(t: Seq<char>) -> Option<bool> {
    if t == flag_text(true) {
        Some(true)
    } else if t == flag_text(false) {
        Some(false)
    } else {
        None
    }
}

/// A non-empty line split at its first `:` into a label and a flag.
pub open spec fn decode_line(line: Seq<char>) -> Option<EntryView> {
    let k = first_index(line, ':');
    if k >= line.len() {
        None
    } else {
        match parse_flag(line.subrange(k + 1 as int, line.len() as int)) {
            Some(b) => Some((line.subrange(0, k as int), b)),
            None => None,
        }
    }
}

/// The mapping `acc` with the lines of `s` applied in order: empty lines are
/// skipped, a later line overrides an earlier one, and one bad line spoils all.
pub open spec fn decode_from(acc: Map<Seq<char>, bool>, s: Seq<char>) -> Option<
    Map<Seq<char>, bool>,
>
    decreases s.len(),
{
    if s.len() == 0 {
        Some(acc)
    } else {
        let k = first_index(s, '\n');
        let line = s.subrange(0, k as int);
        let rest = if k < s.len() {
            s.subrange(k + 1 as int, s.len() as int)
        } else {
            Seq::empty()
        };
        if k == 0 {
            decode_from(acc, rest)
        } else {
            match decode_line(line) {
                Some(e) => decode_from(acc.insert(e.0, e.1), rest),
                None => None,
            }
        }
    }
}

/// The mapping that a whole text denotes, or `None` when a line is malformed.
pub open spec fn decode(s: Seq<char>) -> Option<Map<Seq<char>, bool>> {
    decode_from(Map::empty(), s)
}

/// Why a text could not be read as a todo list.
#[derive(Debug, Clone, Copy, PartialEq, Eq)]
pub enum DecodeError {
    /// A non-empty line lacks the `:` separator or its flag is neither `true` nor `false`.
    MalformedLine,
}

/// The first `c` lies within `s`, or is the end of `s`.
pub proof fn lemma_first_index_bound(s: Seq<char>, c: char)
    ensures
        first_index(s, c) <= s.len(),
        first_index(s, c) < s.len() ==> s[first_index(s, c) as int] == c,
    decreases s.len(),
{
    if s.len() > 0 && s[0] != c {
        lemma_first_index_bound(s.drop_first(), c);
    }
}

/// The first `c` is at `m` when none comes before it and `m` holds one or is the end.
pub proof fn lemma_first_index_at(s: Seq<char>, c: char, m: int)
    requires
        0 <= m <= s.len(),
        forall|j: int| 0 <= j < m ==> s[j] != c,
        m < s.len() ==> s[m] == c,
    ensures
        first_index(s, c) == m,
    decreases m,
{
    if m > 0 {
        lemma_first_index_at(s.drop_first(), c, m - 1);
    }
}

/// The first position of `c` in `cs[from..to]`, or `to`.
fn find_in(cs: &Vec<char>, from: usize, to: usize, c: char) -> (r: usize)
    requires
        from <= to <= cs@.len(),
    ensures
        from <= r <= to,
        r == from + first_index(cs@.subrange(from as int, to as int), c),
{
    let mut i: usize = from;
    while i < to && cs[i] != c
        invariant
            from <= i <= to <= cs@.len(),
            forall|j: int| from <= j < i ==> cs@[j] != c,
        decreases to - i,
    {
        i = i + 1;
    }
    proof {
        lemma_first_index_at(cs@.subrange(from as int, to as int), c, i - from);
    }
    i
}

/// The flag that `cs[from..to]` spells, if any.
fn flag_in(cs: &Vec<char>, from: usize, to: usize) -> (r: Option<bool>)
    requires
        from <= to <= cs@.len(),
    ensures
        r == parse_flag(cs@.subrange(from as int, to as int)),
{
    let ghost t = cs@.subrange(from as int, to as int);
    if to - from == 4 && cs[from] == 't' && cs[from + 1] == 'r' && cs[from + 2] == 'u' && cs[from
        + 3] == 'e' {
        assert(t =~= flag_text(true));
        Some(true)
    } else if to - from == 5 && cs[from] == 'f' && cs[from + 1] == 'a' && cs[from + 2] == 'l'
        && cs[from + 3] == 's' && cs[from + 4] == 'e' {
        assert(t =~= flag_text(false));
        Some(false)
    } else {
        proof {
            if t == flag_text(true) {
                assert(t.len() == 4);
                assert(t[0] == cs@[from as int] && t[1] == cs@[from + 1] && t[2] == cs@[from + 2]
                    && t[3] == cs@[from + 3]);
                assert(false);
            }
            if t == flag_text(false) {
                assert(t.len() == 5);
                assert(t[0] == cs@[from as int] && t[1] == cs@[from + 1] && t[2] == cs@[from + 2]
                    && t[3] == cs@[from + 3] && t[4] == cs@[from + 4]);
                assert(false);
            }
        }
        None
    }
}

/// The characters of `s`, in order.
fn chars_of(s: &str) -> (r: Vec<char>)
    ensures
        r@ == s@,
{
    broadcast use vstd::string::axiom_spec_iter;

    let mut r: Vec<char> = Vec::new();
    for c in it: s.chars()
        invariant
            it.seq() == s@,
            r@ == it.seq().take(it.index() as int),
    {
        r.push(c);
        assert(r@ =~= it.seq().take(it.index() as int + 1));
    }
    assert(r@ =~= s@);
    r
}

/// Encoding one more entry appends its line.
pub proof fn lemma_encode_push(es: Seq<EntryView>, e: EntryView)
    ensures
        encode(es.push(e)) == encode(es) + encode_entry(e),
    decreases es.len(),
{
    if es.len() == 0 {
        assert(es.push(e).drop_first() =~= Seq::<EntryView>::empty());
        assert(es.push(e)[0] == e);
        assert(encode(es.push(e).drop_first()) == Seq::<char>::empty());
        assert(encode(es.push(e)) =~= encode(es) + encode_entry(e));
    } else {
        assert(es.push(e).drop_first() =~= es.drop_first().push(e));
        lemma_encode_push(es.drop_first(), e);
        assert(es.push(e)[0] == es[0]);
        assert(encode(es.push(e)) =~= encode(es) + encode_entry(e));
    }
}

/// Decoding the encoding of entries with unique, valid labels applies them all to `acc`.
pub proof fn lemma_decode_encode(acc: Map<Seq<char>, bool>, es: Seq<EntryView>)
    requires
        labels_unique(es),
        forall|i: int| 0 <= i < es.len() ==> valid_label(#[trigger] es[i].0),
    ensures
        decode_from(acc, encode(es)) == Some(acc.union_prefer_right(map_of(es))),
    decreases es.len(),
{
    if es.len() == 0 {
        assert(map_of(es) =~= Map::<Seq<char>, bool>::empty());
        assert(acc.union_prefer_right(map_of(es)) =~= acc);
    } else {
        let e = es[0];
        let t = es.drop_first();
        let s = encode(es);
        let f = flag_text(e.1);
        let line = e.0 + seq![':'] + f;
        let m = line.len() as int;
        assert(valid_label(e.0));
        assert(s =~= line + seq!['\n'] + encode(t));
        assert forall|j: int| 0 <= j < m implies s[j] != '\n' by {
            if j < e.0.len() {
                assert(s[j] == e.0[j]);
            }
        }
        lemma_first_index_at(s, '\n', m);
        assert(s.subrange(0, m) =~= line);
        assert(s.subrange(m + 1, s.len() as int) =~= encode(t));
        assert forall|j: int| 0 <= j < e.0.len() implies line[j] != ':' by {
            assert(line[j] == e.0[j]);
        }
        lemma_first_index_at(line, ':', e.0.len() as int);
        assert(line.subrange(e.0.len() + 1 as int, line.len() as int) =~= f);
        assert(line.subrange(0, e.0.len() as int) =~= e.0);
        assert(parse_flag(f) == Some(e.1)) by {
            if !e.1 {
                assert(f.len() != flag_text(true).len());
            }
        }
        assert(forall|i: int| 0 <= i < t.len() ==> #[trigger] t[i] == es[i + 1]);
        lemma_decode_encode(acc.insert(e.0, e.1), t);
        lemma_map_of_cons(es);
        assert(acc.insert(e.0, e.1).union_prefer_right(map_of(t)) =~= acc.union_prefer_right(
            map_of(es),
        ));
    }
}

/// Reading back the text written for a mapping whose labels the format can
/// hold gives that mapping again, whatever order the lines were written in.
pub proof fn lemma_round_trip(text: Seq<char>, m: Map<Seq<char>, bool>)
    requires
        encodes(text, m),
        forall|l: Seq<char>| #[trigger] m.contains_key(l) ==> valid_label(l),
    ensures
        decode(text) == Some(m),
{
    let es = choose|es: Seq<EntryView>| labels_unique(es) && map_of(es) == m && text == encode(es);
    assert forall|i: int| 0 <= i < es.len() implies valid_label(#[trigger] es[i].0) by {
        crate::list::lemma_map_of_entry(es, i);
    }
    lemma_decode_encode(Map::empty(), es);
    assert(Map::<Seq<char>, bool>::empty().union_prefer_right(m) =~= m);
}

/// Writes a todo list as the text of a store file, one line per item.
pub fn serialize(list: &TodoList) -> (r: String)
    requires
        list.wf(),
    ensures
        encodes(r@, list@),
{
    let items = list.entries();
    let ghost es = items@.map_values(|e: (String, bool)| (e.0@, e.1));
    let mut out = String::new();
    let mut i: usize = 0;
    proof {
        assert(es.take(0) =~= Seq::<EntryView>::empty());
    }
    while i < items.len()
        invariant
            i <= items@.len(),
            es == items@.map_values(|e: (String, bool)| (e.0@, e.1)),
            out@ == encode(es.take(i as int)),
        decreases items.len() - i,
    {
        let ghost before = out@;
        out.append(items[i].0.as_str());
        out.append(":");
        if items[i].1 {
            out.append("true");
        } else {
            out.append("false");
        }
        out.append("\n");
        proof {
            reveal_strlit(":");
            reveal_strlit("\n");
            reveal_strlit("true");
            reveal_strlit("false");
            assert(es[i as int] == (items@[i as int].0@, items@[i as int].1));
            lemma_encode_push(es.take(i as int), es[i as int]);
            assert(es.take(i + 1) =~= es.take(i as int).push(es[i as int]));
            assert(out@ =~= before + encode_entry(es[i as int]));
        }
        i = i + 1;
    }
    assert(es.take(i as int) =~= es);
    out
}

/// Reads a todo list from the text of a store file.
pub fn parse(text: &str) -> (r: Result<TodoList, DecodeError>)
    ensures
        match r {
            Ok(l) => l.wf() && decode(text@) == Some(l@),
            Err(_) => decode(text@) is None,
        },
{
    let cs = chars_of(text);
    let n = cs.len();
    let mut list = TodoList::new();
    let mut pos: usize = 0;
    assert(text@.subrange(0, n as int) =~= text@);
    while pos < n
        invariant
            cs@ == text@,
            n == cs@.len(),
            pos <= n,
            list.wf(),
            decode(text@) == decode_from(list@, text@.subrange(pos as int, n as int)),
        decreases n - pos,
    {
        let ghost s = text@.subrange(pos as int, n as int);
        let k = find_in(&cs, pos, n, '\n');
        proof {
            lemma_first_index_bound(s, '\n');
        }
        let next = if k < n { k + 1 } else { n };
        let ghost rest = if k < n { s.subrange((k - pos) + 1, s.len() as int) } else { Seq::empty() };
        assert(text@.subrange(next as int, n as int) =~= rest);
        if k > pos {
            let ghost line = s.subrange(0, k - pos);
            assert(line =~= cs@.subrange(pos as int, k as int));
            let colon = find_in(&cs, pos, k, ':');
            if colon == k {
                return Err(DecodeError::MalformedLine);
            }
            assert(line.subrange((colon - pos) + 1, line.len() as int) =~= cs@.subrange(
                colon + 1,
                k as int,
            ));
            assert(line.subrange(0, colon - pos) =~= cs@.subrange(pos as int, colon as int));
            match flag_in(&cs, colon + 1, k) {
                Some(b) => {
                    let label = text.substring_char(pos, colon).to_owned();
                    list.add(label, b);
                },
                None => {
                    return Err(DecodeError::MalformedLine);
                },
            }
        }
        pos = next;
    }
    assert(text@.subrange(n as int, n as int) =~= Seq::<char>::empty());
    Ok(list)
}

} // verus!
