//! The line framing of JSONL shards: one record per line, each line ended
//! by a newline; blank lines are not records.
use vstd::prelude::*;
use crate::scanner::chars::{find_from, string_of, trim, trimmed};
use crate::ste100::dictionary::{split, split_on, texts_view};
use crate::store::cache::graph::ids_view;
use crate::text::push_text;

verus! {

/// A piece of the text between newlines, as `str::lines` gives it: a
/// carriage return that ends a line before its newline is not part of it.
pub open spec fn line_of(piece: Seq<char>, ended: bool) -> Seq<char> {
    if ended && piece.len() > 0 && piece.last() == '\r' {
        piece.drop_last()
    } else {
        piece
    }
}

/// The lines among the first `n` pieces that hold more than white space,
/// in order; every piece but the last one is ended by a newline.
pub open spec fn kept_lines(pieces: Seq<Seq<char>>, n: int) -> Seq<Seq<char>>
    decreases n,
{
    if n <= 0 {
        seq![]
    } else {
        let l = line_of(pieces[n - 1], n < pieces.len());
        kept_lines(pieces, n - 1) + if trimmed(l).len() > 0 {
            seq![l]
        } else {
            seq![]
        }
    }
}

/// The record lines of a shard's text.
pub open spec fn record_lines_of(contents: Seq<char>) -> Seq<Seq<char>> {
    let pieces = split_on(contents, seq!['\n']);
    kept_lines(pieces, pieces.len() as int)
}

/// The lines of a shard's text that hold a record, in order: its lines, as
/// `str::lines` reads them, that are not blank.
pub fn record_lines(contents: &str) -> (r: Vec<String>)
    ensures
        ids_view(r@) == record_lines_of(contents@),
{
    let (chars, _) = crate::text::decode(contents);
    let newline: Vec<char> = vec!['\n'];
    assert(newline@ =~= seq!['\n']);
    let pieces = split(chars.as_slice(), newline.as_slice());
    let ghost pv = texts_view(pieces@);
    let mut r: Vec<String> = Vec::new();
    let mut i: usize = 0;
    while i < pieces.len()
        invariant
            0 <= i <= pieces@.len(),
            pv == texts_view(pieces@),
            pv == split_on(contents@, seq!['\n']),
            ids_view(r@) == kept_lines(pv, i as int),
        decreases pieces@.len() - i,
    {
        let piece = &pieces[i];
        assert(piece@ == pv[i as int]);
        let ended = i + 1 < pieces.len();
        let n = piece.len();
        let line: Vec<char> = if ended && n > 0 && piece[n - 1] == '\r' {
            let l = crate::text::sub_chars(piece.as_slice(), 0, n - 1);
            assert(l@ =~= piece@.drop_last());
            l
        } else {
            let l = crate::text::sub_chars(piece.as_slice(), 0, n);
            assert(l@ =~= piece@);
            l
        };
        assert(line@ == line_of(pv[i as int], i + 1 < pv.len()));
        let t = trim(line.as_slice());
        let ghost before = ids_view(r@);
        if t.len() > 0 {
            let s = string_of(line.as_slice());
            r.push(s);
            assert(ids_view(r@) =~= before.push(line@));
        }
        assert(ids_view(r@) =~= kept_lines(pv, i + 1));
        i = i + 1;
    }
    r
}

/// A shard's text: every record line followed by a newline.
pub open spec fn document_of(lines: Seq<Seq<char>>) -> Seq<char>
    decreases lines.len(),
{
    if lines.len() == 0 {
        seq![]
    } else {
        document_of(lines.drop_last()) + lines.last() + seq!['\n']
    }
}

/// The text of a shard holding `lines`, one per line, each ended by a
/// newline.
pub fn jsonl_document(lines: &[String]) -> (r: String)
    ensures
        r@ == document_of(ids_view(lines@)),
{
    let ghost lv = ids_view(lines@);
    let mut out = String::new();
    let mut i: usize = 0;
    while i < lines.len()
        invariant
            0 <= i <= lines@.len(),
            lv == ids_view(lines@),
            out@ == document_of(lv.subrange(0, i as int)),
        decreases lines@.len() - i,
    {
        proof {
            let s = lv.subrange(0, i + 1);
            assert(s.drop_last() =~= lv.subrange(0, i as int));
            assert(s.last() == lines@[i as int]@);
        }
        push_text(&mut out, lines[i].as_str());
        push_text(&mut out, "\n");
        proof {
            reveal_strlit("\n");
        }
        assert(out@ =~= document_of(lv.subrange(0, i + 1)));
        i = i + 1;
    }
    assert(lv.subrange(0, lines@.len() as int) =~= lv);
    out
}

/// The first newline of `a + "\n" + b`, looking from `i` on, is the one
/// after `a`, when `a` holds none.
proof fn lemma_first_newline(a: Seq<char>, b: Seq<char>, i: int)
    requires
        0 <= i <= a.len(),
        !a.contains('\n'),
    ensures
        find_from(a + seq!['\n'] + b, seq!['\n'], i) == Some(a.len() as int),
    decreases a.len() - i,
{
    let t = a + seq!['\n'] + b;
    if i < a.len() {
        assert(t.subrange(i, i + 1) =~= seq![a[i]]);
        if t.subrange(i, i + 1) == seq!['\n'] {
            assert(seq![a[i]][0] == '\n');
            assert(a.contains('\n'));
        }
        lemma_first_newline(a, b, i + 1);
    } else {
        assert(t.subrange(i, i + 1) =~= seq!['\n']);
    }
}

/// Splitting `a + "\n" + b` on newlines gives `a`, then the pieces of `b`.
proof fn lemma_split_first_line(a: Seq<char>, b: Seq<char>)
    requires
        !a.contains('\n'),
    ensures
        split_on(a + seq!['\n'] + b, seq!['\n']) == seq![a] + split_on(b, seq!['\n']),
{
    let t = a + seq!['\n'] + b;
    lemma_first_newline(a, b, 0);
    assert(t.subrange(0, a.len() as int) =~= a);
    assert(t.subrange(a.len() + 1int, t.len() as int) =~= b);
}

/// A document is its first line, a newline, and the document of the rest.
proof fn lemma_document_front(lines: Seq<Seq<char>>)
    requires
        lines.len() > 0,
    ensures
        document_of(lines) == lines[0] + seq!['\n'] + document_of(lines.drop_first()),
    decreases lines.len(),
{
    if lines.len() == 1 {
        assert(lines.drop_last() =~= Seq::<Seq<char>>::empty());
        assert(lines.drop_first() =~= Seq::<Seq<char>>::empty());
        assert(document_of(lines.drop_first()) =~= Seq::<char>::empty());
        assert(document_of(lines.drop_last()) =~= Seq::<char>::empty());
        assert(document_of(lines) =~= lines[0] + seq!['\n'] + document_of(lines.drop_first()));
    } else {
        lemma_document_front(lines.drop_last());
        assert(lines.drop_last().drop_first() =~= lines.drop_first().drop_last());
        assert(lines.drop_first().last() == lines.last());
        assert(document_of(lines) =~= lines[0] + seq!['\n'] + document_of(lines.drop_first()));
    }
}

/// Splitting a document on newlines gives its lines and one empty piece
/// after the last newline.
proof fn lemma_split_document(lines: Seq<Seq<char>>)
    requires
        forall|k: int| 0 <= k < lines.len() ==> !(#[trigger] lines[k]).contains('\n'),
    ensures
        split_on(document_of(lines), seq!['\n']) == lines.push(Seq::<char>::empty()),
    decreases lines.len(),
{
    if lines.len() == 0 {
        assert(find_from(Seq::<char>::empty(), seq!['\n'], 0) is None);
        assert(split_on(document_of(lines), seq!['\n']) =~= lines.push(Seq::<char>::empty()));
    } else {
        lemma_document_front(lines);
        let rest = lines.drop_first();
        assert forall|k: int| 0 <= k < rest.len() implies !(#[trigger] rest[k]).contains('\n') by {
            assert(rest[k] == lines[k + 1]);
        }
        lemma_split_document(rest);
        assert(!lines[0].contains('\n'));
        lemma_split_first_line(lines[0], document_of(rest));
        assert(seq![lines[0]] + rest.push(Seq::<char>::empty()) =~= lines.push(Seq::<char>::empty()));
    }
}

/// Reading the pieces of a document keeps every line that is not blank and
/// has no carriage return.
proof fn lemma_kept_document_lines(lines: Seq<Seq<char>>, n: int)
    requires
        0 <= n <= lines.len(),
        forall|k: int| 0 <= k < lines.len() ==> !(#[trigger] lines[k]).contains('\r'),
        forall|k: int| 0 <= k < lines.len() ==> trimmed(#[trigger] lines[k]).len() > 0,
    ensures
        kept_lines(lines.push(Seq::<char>::empty()), n) == lines.subrange(0, n),
    decreases n,
{
    let pieces = lines.push(Seq::<char>::empty());
    if n > 0 {
        lemma_kept_document_lines(lines, n - 1);
        let l = lines[n - 1];
        assert(pieces[n - 1] == l);
        if l.len() > 0 && l.last() == '\r' {
            assert(l.contains('\r'));
        }
        assert(line_of(pieces[n - 1], n < pieces.len()) == l);
        assert(trimmed(l).len() > 0);
        assert(lines.subrange(0, n - 1).push(l) =~= lines.subrange(0, n));
    } else {
        assert(lines.subrange(0, 0) =~= Seq::<Seq<char>>::empty());
    }
}

/// Writing record lines and reading them back gives the same lines, as
/// long as no line holds a newline or a carriage return or is blank.
pub proof fn law_document_lines_read_back(lines: Seq<Seq<char>>)
    requires
        forall|k: int| 0 <= k < lines.len() ==> !(#[trigger] lines[k]).contains('\n'),
        forall|k: int| 0 <= k < lines.len() ==> !(#[trigger] lines[k]).contains('\r'),
        forall|k: int| 0 <= k < lines.len() ==> trimmed(#[trigger] lines[k]).len() > 0,
    ensures
        record_lines_of(document_of(lines)) == lines,
{
    lemma_split_document(lines);
    let pieces = lines.push(Seq::<char>::empty());
    lemma_kept_document_lines(lines, lines.len() as int);
    let last = line_of(pieces[lines.len() as int], false);
    assert(last =~= Seq::<char>::empty());
    assert(trimmed(last).len() == 0);
    assert(lines.subrange(0, lines.len() as int) =~= lines);
    assert(kept_lines(pieces, pieces.len() as int) =~= lines);
}

} // verus!
