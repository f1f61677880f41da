//! What each command does to the list, and the seed of a new store.
use vstd::prelude::*;
use crate::codec::{decode, encode, lemma_decode_encode};
use crate::list::{EntryView, TodoList, labels_unique, map_of};

verus! {

/// The label of the item that a new store starts with.
pub open spec fn placeholder_label() -> Seq<char> {
    seq!['p', 'l', 'a', 'c', 'e', 'h', 'o', 'l', 'd', 'e', 'r']
}

/// The text that a store file found empty is seeded with, or `None` when the
/// file already holds text.
pub fn seed_text(existing: &str) -> (r: Option<String>)
    ensures
        existing@.len() == 0 <==> r is Some,
        r is Some ==> r->0@ == encode(seq![(placeholder_label(), false)]),
        r is Some ==> decode(r->0@) == Some(map![placeholder_label() => false]),
{
    if existing.is_empty() {
        let s = "placeholder:false\n".to_owned();
        proof {
            reveal_strlit("placeholder:false\n");
            let es = seq![(placeholder_label(), false)];
            assert(es.drop_first() =~= Seq::<EntryView>::empty());
            assert(encode(es.drop_first()) == Seq::<char>::empty());
            assert(encode(es) == crate::codec::encode_entry(es[0]) + Seq::<char>::empty());
            assert(s@ =~= encode(es));
            assert(labels_unique(es));
            assert(forall|l: Seq<char>| l.contains(':') ==> l != placeholder_label());
            lemma_decode_encode(Map::empty(), es);
            crate::list::lemma_map_of_entry(es, 0);
            assert(map_of(es) =~= map![placeholder_label() => false]);
            assert(Map::<Seq<char>, bool>::empty().union_prefer_right(map_of(es)) =~= map![
                placeholder_label() => false,
            ]);
        }
        Some(s)
    } else {
        None
    }
}

/// The words of an item, joined with single spaces.
pub open spec fn join_words(ws: Seq<Seq<char>>) -> Seq<char>
    decreases ws.len(),
{
    if ws.len() == 0 {
        Seq::empty()
    } else if ws.len() == 1 {
        ws[0]
    } else {
        join_words(ws.drop_last()) + seq![' '] + ws.last()
    }
}

/// The label that the words given on the command line make.
pub fn label_of(words: &Vec<String>) -> (r: String)
    ensures
        r@ == join_words(words@.map_values(|w: String| w@)),
{
    let ghost ws = words@.map_values(|w: String| w@);
    let mut out = String::new();
    let mut i: usize = 0;
    assert(ws.take(0) =~= Seq::<Seq<char>>::empty());
    while i < words.len()
        invariant
            i <= words@.len(),
            ws == words@.map_values(|w: String| w@),
            out@ == join_words(ws.take(i as int)),
        decreases words.len() - i,
    {
        let ghost before = out@;
        if i > 0 {
            out.append(" ");
        }
        out.append(words[i].as_str());
        proof {
            reveal_strlit(" ");
            assert(ws.take(i + 1).drop_last() =~= ws.take(i as int));
            if i == 0 {
                assert(out@ =~= ws.take(1)[0]);
            } else {
                assert(out@ =~= before + seq![' '] + ws.take(i + 1).last());
            }
        }
        i = i + 1;
    }
    assert(ws.take(i as int) =~= ws);
    out
}

/// A request from the command line.
#[derive(Debug, Clone, PartialEq, Eq)]
pub enum Command {
    /// Show the list.
    List,
    /// Add an unchecked item, or reset an existing one.
    Add(String),
    /// Mark an item as done, adding it when absent.
    Check(String),
    /// Remove an item if present.
    Delete(String),
}

/// Carries out `cmd` on `list` and says whether the store must be rewritten,
/// which it must after every change request.
pub fn apply(list: &mut TodoList, cmd: Command) -> (save: bool)
    requires
        old(list).wf(),
    ensures
        final(list).wf(),
        match cmd {
            Command::List => !save && final(list)@ == old(list)@,
            Command::Add(l) => save && final(list)@ == old(list)@.insert(l@, false),
            Command::Check(l) => save && final(list)@ == old(list)@.insert(l@, true),
            Command::Delete(l) => save && final(list)@ == old(list)@.remove(l@),
        },
{
    match cmd {
        Command::List => false,
        Command::Add(l) => {
            list.add(l, false);
            true
        },
        Command::Check(l) => {
            list.check(l);
            true
        },
        Command::Delete(l) => {
            list.delete(&l);
            true
        },
    }
}

} // verus!
