use vstd::prelude::*;
use vstd::seq_lib::lemma_flatten_concat;

verus! {

/// `s` holds no line feed.
pub open spec fn no_newline(s: Seq<char>) -> bool {
    forall|j: int| 0 <= j < s.len() ==> s[j] != '\n'
}

/// `s` ends with a line feed.
pub open spec fn ends_with_newline(s: Seq<char>) -> bool {
    s.len() > 0 && s.last() == '\n'
}

/// The text cut after each line feed, as a rope's line index cuts it: each
/// piece but the last ends with its line feed, and the last holds none (it is
/// empty when the text ends with a line feed).
pub open spec fn lines_of(s: Seq<char>) -> Seq<Seq<char>>
    decreases s.len(),
{
    if s.len() == 0 {
        seq![Seq::<char>::empty()]
    } else {
        let rest = lines_of(s.drop_first());
        if s[0] == '\n' {
            seq![seq!['\n']] + rest
        } else {
            rest.update(0, seq![s[0]] + rest[0])
        }
    }
}

/// A well-formed split of a text into lines.
pub open spec fn wf_lines(ls: Seq<Seq<char>>) -> bool {
    &&& ls.len() >= 1
    &&& forall|i: int|
        0 <= i < ls.len() - 1 ==> ends_with_newline(#[trigger] ls[i]) && no_newline(
            ls[i].drop_last(),
        )
    &&& no_newline(ls.last())
}

/// The split of any text is well formed and joins back to the text.
pub proof fn lemma_lines_of_wf(s: Seq<char>)
    ensures
        wf_lines(lines_of(s)),
        lines_of(s).flatten() == s,
    decreases s.len(),
{
    if s.len() == 0 {
        let ls = lines_of(s);
        assert(ls.drop_first() =~= Seq::<Seq<char>>::empty());
        assert(ls.drop_first().flatten() == Seq::<char>::empty());
        assert(ls.flatten() == ls.first() + ls.drop_first().flatten());
        assert(ls.flatten() =~= s);
    } else {
        let rest = lines_of(s.drop_first());
        lemma_lines_of_wf(s.drop_first());
        let ls = lines_of(s);
        if s[0] == '\n' {
            assert(ls.drop_first() =~= rest);
            assert(ls.flatten() == ls.first() + rest.flatten());
            assert(ls.first() == seq!['\n']);
            assert(s =~= seq!['\n'] + s.drop_first());
            assert forall|i: int| 0 <= i < ls.len() - 1 implies ends_with_newline(
                #[trigger] ls[i],
            ) && no_newline(ls[i].drop_last()) by {
                if i > 0 {
                    assert(ls[i] == rest[i - 1]);
                }
            }
        } else {
            assert(ls.drop_first() =~= rest.drop_first());
            assert(rest.flatten() == rest[0] + rest.drop_first().flatten());
            assert(ls.flatten() == ls.first() + ls.drop_first().flatten());
            assert(ls.first() == seq![s[0]] + rest[0]);
            assert(s =~= seq![s[0]] + s.drop_first());
            assert(ls.flatten() =~= s);
            assert forall|i: int| 0 <= i < ls.len() - 1 implies ends_with_newline(
                #[trigger] ls[i],
            ) && no_newline(ls[i].drop_last()) by {
                if i == 0 {
                    assert(ls[0].drop_last() =~= seq![s[0]] + rest[0].drop_last());
                }
            }
            if ls.len() == 1 {
                assert(ls.last() =~= seq![s[0]] + rest[0]);
            }
        }
    }
}

/// A well-formed split is the only one: a text's lines are determined by it.
pub proof fn lemma_lines_unique(ls: Seq<Seq<char>>)
    requires
        wf_lines(ls),
    ensures
        lines_of(ls.flatten()) == ls,
    decreases ls.flatten().len(),
{
    let s = ls.flatten();
    let rest_ls = ls.drop_first();
    assert(s == ls[0] + rest_ls.flatten());
    if ls[0].len() == 0 {
        if ls.len() > 1 {
            assert(ends_with_newline(ls[0]));
        }
        assert(rest_ls =~= Seq::<Seq<char>>::empty());
        assert(s =~= Seq::<char>::empty());
        assert(ls =~= seq![Seq::<char>::empty()]);
    } else if ls[0][0] == '\n' {
        if ls.len() == 1 {
            assert(ls.last() == ls[0]);
        }
        assert(ls.len() > 1);
        assert(ls[0].drop_last().len() == 0) by {
            if ls[0].len() > 1 {
                assert(ls[0].drop_last()[0] == ls[0][0]);
            }
        }
        assert(ls[0] =~= seq!['\n']);
        assert(s.drop_first() =~= rest_ls.flatten());
        assert forall|i: int| 0 <= i < rest_ls.len() - 1 implies ends_with_newline(
            #[trigger] rest_ls[i],
        ) && no_newline(rest_ls[i].drop_last()) by {
            assert(rest_ls[i] == ls[i + 1]);
        }
        lemma_lines_unique(rest_ls);
        assert(lines_of(s) =~= seq![seq!['\n']] + rest_ls);
        assert(ls =~= seq![seq!['\n']] + rest_ls);
    } else {
        let first = ls[0].drop_first();
        let ls2 = ls.update(0, first);
        assert(ls2.drop_first() =~= rest_ls);
        assert(ls2.flatten() == first + rest_ls.flatten());
        assert(s.drop_first() =~= ls2.flatten());
        if ls.len() > 1 {
            assert(ends_with_newline(ls[0]) && no_newline(ls[0].drop_last()));
            assert(ls[0].len() >= 2);
            assert(first.drop_last() =~= ls[0].drop_last().drop_first());
        }
        assert forall|i: int| 0 <= i < ls2.len() - 1 implies ends_with_newline(
            #[trigger] ls2[i],
        ) && no_newline(ls2[i].drop_last()) by {
            if i == 0 {
                assert(ends_with_newline(ls[0]) && no_newline(ls[0].drop_last()));
                assert(first.drop_last() =~= ls[0].drop_last().drop_first());
            }
        }
        if ls.len() == 1 {
            assert(ls2.last() =~= ls.last().drop_first());
        }
        lemma_lines_unique(ls2);
        assert(s[0] == ls[0][0]);
        assert(seq![s[0]] + first =~= ls[0]);
        assert(lines_of(s) =~= ls2.update(0, seq![s[0]] + ls2[0]));
        assert(ls =~= ls2.update(0, seq![s[0]] + ls2[0]));
    }
}

} // verus!

verus! {

/// Joining a split at line `i`: the lines before it, then the lines from it on.
pub proof fn lemma_flatten_split(ls: Seq<Seq<char>>, i: int)
    requires
        0 <= i <= ls.len(),
    ensures
        ls.flatten() == ls.take(i).flatten() + ls.skip(i).flatten(),
        i < ls.len() ==> ls.skip(i).flatten() == ls[i] + ls.skip(i + 1).flatten(),
        i < ls.len() ==> ls.take(i + 1).flatten() == ls.take(i).flatten() + ls[i],
{
    assert(ls =~= ls.take(i) + ls.skip(i));
    lemma_flatten_concat(ls.take(i), ls.skip(i));
    if i < ls.len() {
        assert(ls.skip(i).drop_first() =~= ls.skip(i + 1));
        assert(ls.skip(i).first() == ls[i]);
        assert(ls.take(i + 1) =~= ls.take(i) + seq![ls[i]]);
        lemma_flatten_concat(ls.take(i), seq![ls[i]]);
        assert(seq![ls[i]].drop_first() =~= Seq::<Seq<char>>::empty());
        assert(seq![ls[i]].flatten() =~= ls[i] + seq![ls[i]].drop_first().flatten());
    }
}

} // verus!


verus! {

/// The lines of a document: the text cut after each line feed, each line
/// keeping its terminator; a line feed at the very end opens no further line,
/// and the empty text is one empty line.
pub open spec fn doc_lines(s: Seq<char>) -> Seq<Seq<char>> {
    if ends_with_newline(s) {
        lines_of(s).drop_last()
    } else {
        lines_of(s)
    }
}

/// A well-formed list of document lines: every line but the last ends in a
/// line feed, no line holds one elsewhere, and only a lone line may be empty.
pub open spec fn wf_doc(ls: Seq<Seq<char>>) -> bool {
    &&& ls.len() >= 1
    &&& forall|i: int|
        0 <= i < ls.len() - 1 ==> ends_with_newline(#[trigger] ls[i]) && no_newline(
            ls[i].drop_last(),
        )
    &&& no_newline(ls.last()) || (ends_with_newline(ls.last()) && no_newline(ls.last().drop_last()))
    &&& ls.len() > 1 ==> ls.last().len() > 0
}

/// A line as `insert_line` writes it: a line feed is added when missing.
pub open spec fn with_newline(t: Seq<char>) -> Seq<char> {
    if ends_with_newline(t) {
        t
    } else {
        t.push('\n')
    }
}

/// The lines with the last one given a line feed if it lacks one.
pub open spec fn with_last_terminated(ls: Seq<Seq<char>>) -> Seq<Seq<char>> {
    ls.update(ls.len() - 1, with_newline(ls.last()))
}

/// The lines after inserting `t` as line `i`: inserting after the last line
/// first terminates that line.
pub open spec fn lines_after_insert(ls: Seq<Seq<char>>, i: int, t: Seq<char>) -> Seq<Seq<char>> {
    if i == ls.len() {
        with_last_terminated(ls).insert(i, with_newline(t))
    } else {
        ls.insert(i, with_newline(t))
    }
}

/// The last piece of a rope's split is empty exactly when the text is empty
/// or ends in a line feed.
pub proof fn lemma_last_piece_empty(s: Seq<char>)
    ensures
        (lines_of(s).last().len() == 0) <==> (s.len() == 0 || ends_with_newline(s)),
        ends_with_newline(s) ==> lines_of(s).len() > 1,
{
    let ls = lines_of(s);
    lemma_lines_of_wf(s);
    lemma_flatten_split(ls, ls.len() - 1);
    assert(ls.skip(ls.len() - 1).drop_first() =~= Seq::<Seq<char>>::empty());
    let pre = ls.take(ls.len() - 1).flatten();
    assert(s == pre + ls.last());
    if ls.len() > 1 {
        lemma_flatten_split(ls.take(ls.len() - 1), ls.len() - 2);
        let p = ls.take(ls.len() - 1);
        assert(p.skip(p.len() - 1).drop_first() =~= Seq::<Seq<char>>::empty());
        assert(p[p.len() - 1] == ls[ls.len() - 2]);
        assert(ends_with_newline(ls[ls.len() - 2]));
        assert(pre.len() > 0 && pre.last() == '\n');
    } else {
        assert(ls.take(0) =~= Seq::<Seq<char>>::empty());
        assert(pre.len() == 0);
    }
    if ls.last().len() > 0 {
        assert(s.last() == ls.last().last());
    }
    if ends_with_newline(s) && ls.len() == 1 {
        assert(s == ls.last());
    }
}

/// The document's lines are well formed, join back to the text, and are the
/// rope's split less its empty last piece after a final line feed.
pub proof fn lemma_doc_lines_wf(s: Seq<char>)
    ensures
        wf_doc(doc_lines(s)),
        doc_lines(s).flatten() == s,
        lines_of(s) == doc_lines(s) || lines_of(s) == doc_lines(s).push(Seq::<char>::empty()),
        forall|i: int| 0 <= i < doc_lines(s).len() ==> lines_of(s)[i] == #[trigger] doc_lines(s)[i],
        forall|i: int| 0 <= i <= doc_lines(s).len() ==> lines_of(s).take(i) == #[trigger] doc_lines(s).take(i),
{
    let ls = lines_of(s);
    lemma_lines_of_wf(s);
    lemma_last_piece_empty(s);
    let d = doc_lines(s);
    if ends_with_newline(s) {
        assert(ls.len() > 1);
        assert(ls.last() =~= Seq::<char>::empty());
        assert(ls =~= d + seq![Seq::<char>::empty()]);
        lemma_flatten_concat(d, seq![Seq::<char>::empty()]);
        seq![Seq::<char>::empty()].lemma_flatten_one_element();
        assert(d.flatten() =~= ls.flatten());
        assert(d.last() == ls[ls.len() - 2]);
        assert forall|i: int| 0 <= i < d.len() - 1 implies ends_with_newline(#[trigger] d[i])
            && no_newline(d[i].drop_last()) by {
            assert(d[i] == ls[i]);
        }
        assert forall|i: int| 0 <= i <= d.len() implies ls.take(i) == #[trigger] d.take(i) by {
            assert(ls.take(i) =~= d.take(i));
        }
    }
}

/// A well-formed list of document lines is the only one for its text.
pub proof fn lemma_doc_unique(ls: Seq<Seq<char>>)
    requires
        wf_doc(ls),
    ensures
        doc_lines(ls.flatten()) == ls,
{
    let s = ls.flatten();
    lemma_flatten_split(ls, ls.len() - 1);
    assert(ls.skip(ls.len() - 1).drop_first() =~= Seq::<Seq<char>>::empty());
    assert(s == ls.take(ls.len() - 1).flatten() + ls.last());
    if ends_with_newline(ls.last()) {
        let m = ls.push(Seq::<char>::empty());
        assert(m =~= ls + seq![Seq::<char>::empty()]);
        lemma_flatten_concat(ls, seq![Seq::<char>::empty()]);
        seq![Seq::<char>::empty()].lemma_flatten_one_element();
        assert(m.flatten() =~= s);
        assert forall|i: int| 0 <= i < m.len() - 1 implies ends_with_newline(#[trigger] m[i])
            && no_newline(m[i].drop_last()) by {
            assert(m[i] == ls[i]);
        }
        lemma_lines_unique(m);
        assert(s.last() == ls.last().last());
        assert(m.drop_last() =~= ls);
    } else {
        lemma_lines_unique(ls);
        if ls.last().len() > 0 {
            assert(s.last() == ls.last().last());
        }
    }
}

/// A document always has at least one line, the empty one exactly one.
pub proof fn law_line_count_positive(s: Seq<char>)
    ensures
        doc_lines(s).len() >= 1,
        s.len() == 0 ==> doc_lines(s).len() == 1,
{
    lemma_doc_lines_wf(s);
}

} // verus!

verus! {

/// `s` without the carriage returns at its end.
pub open spec fn drop_trailing_cr(s: Seq<char>) -> Seq<char>
    decreases s.len(),
{
    if s.len() > 0 && s.last() == '\r' {
        drop_trailing_cr(s.drop_last())
    } else {
        s
    }
}

/// Every two-character terminator rewritten to a line feed, read left to
/// right: a line feed takes away the carriage returns just before it, so no
/// `\r\n` is left, not even one that a rewrite brings together.
pub open spec fn normalize_crlf(s: Seq<char>) -> Seq<char>
    decreases s.len(),
{
    if s.len() == 0 {
        s
    } else if s.last() == '\n' {
        drop_trailing_cr(normalize_crlf(s.drop_last())).push('\n')
    } else {
        normalize_crlf(s.drop_last()).push(s.last())
    }
}

/// `s` holds the pair `\r\n` nowhere.
pub open spec fn no_crlf(s: Seq<char>) -> bool {
    forall|j: int| 0 <= j < s.len() - 1 ==> !(#[trigger] s[j] == '\r' && s[j + 1] == '\n')
}

/// A line without its terminator, `\r\n` or `\n`.
pub open spec fn strip_terminator(l: Seq<char>) -> Seq<char> {
    if ends_with_newline(l) {
        let m = l.drop_last();
        if m.len() > 0 && m.last() == '\r' {
            m.drop_last()
        } else {
            m
        }
    } else {
        l
    }
}

/// What is written to disk for a text: every line as stored but the last,
/// whose terminator is left out, then one line feed when the flag is set.
pub open spec fn saved_text(s: Seq<char>, trailing_newline: bool) -> Seq<char> {
    let d = doc_lines(s);
    let body = d.drop_last().flatten() + strip_terminator(d.last());
    if trailing_newline {
        body.push('\n')
    } else {
        body
    }
}

/// Dropping final carriage returns keeps a prefix that ends in none.
pub proof fn lemma_drop_trailing_cr(s: Seq<char>)
    ensures
        drop_trailing_cr(s).len() <= s.len(),
        drop_trailing_cr(s) == s.take(drop_trailing_cr(s).len() as int),
        !(drop_trailing_cr(s).len() > 0 && drop_trailing_cr(s).last() == '\r'),
    decreases s.len(),
{
    if s.len() > 0 && s.last() == '\r' {
        lemma_drop_trailing_cr(s.drop_last());
        let k = drop_trailing_cr(s).len() as int;
        assert(s.drop_last().take(k) =~= s.take(k));
    } else {
        assert(s.take(s.len() as int) =~= s);
    }
}

/// Normalization leaves no `\r\n`, for every text.
pub proof fn law_normalized_has_no_crlf(s: Seq<char>)
    ensures
        no_crlf(normalize_crlf(s)),
    decreases s.len(),
{
    if s.len() > 0 {
        let r = normalize_crlf(s.drop_last());
        law_normalized_has_no_crlf(s.drop_last());
        let n = normalize_crlf(s);
        if s.last() == '\n' {
            let d = drop_trailing_cr(r);
            lemma_drop_trailing_cr(r);
            assert forall|j: int| 0 <= j < n.len() - 1 implies !(#[trigger] n[j] == '\r' && n[j
                + 1] == '\n') by {
                if j + 1 < d.len() {
                    assert(n[j] == r[j] && n[j + 1] == r[j + 1]);
                } else {
                    assert(j == d.len() - 1);
                    assert(n[j] == d.last());
                }
            }
        } else {
            assert forall|j: int| 0 <= j < n.len() - 1 implies !(#[trigger] n[j] == '\r' && n[j
                + 1] == '\n') by {
                if j + 1 < r.len() {
                    assert(n[j] == r[j] && n[j + 1] == r[j + 1]);
                } else {
                    assert(n[j + 1] == s.last());
                }
            }
        }
    }
}

/// A text without `\r\n` is left as it is by normalization.
pub proof fn law_normalize_no_crlf(s: Seq<char>)
    requires
        no_crlf(s),
    ensures
        normalize_crlf(s) == s,
    decreases s.len(),
{
    if s.len() > 0 {
        let p = s.drop_last();
        assert(no_crlf(p)) by {
            assert forall|j: int| 0 <= j < p.len() - 1 implies !(#[trigger] p[j] == '\r' && p[j
                + 1] == '\n') by {
                assert(p[j] == s[j] && p[j + 1] == s[j + 1]);
            }
        }
        law_normalize_no_crlf(p);
        if s.last() == '\n' {
            if p.len() > 0 {
                assert(s[p.len() - 1] == p.last());
                assert(p.last() != '\r');
            }
            assert(drop_trailing_cr(p) == p);
        }
        assert(p.push(s.last()) =~= s);
    }
}

/// Normalizing twice gives what normalizing once gives.
pub proof fn law_normalize_idempotent(s: Seq<char>)
    ensures
        normalize_crlf(normalize_crlf(s)) == normalize_crlf(s),
{
    law_normalized_has_no_crlf(s);
    law_normalize_no_crlf(normalize_crlf(s));
}

/// What is saved ends in a line feed exactly when the flag is set, and then
/// in one line feed only, whatever the last line stored; this holds whenever
/// the last line has text besides its terminator.
pub proof fn law_saved_text_ending(s: Seq<char>, trailing_newline: bool)
    requires
        strip_terminator(doc_lines(s).last()).len() > 0,
    ensures
        ends_with_newline(saved_text(s, trailing_newline)) == trailing_newline,
        !ends_with_newline(saved_text(s, false)),
        trailing_newline ==> saved_text(s, trailing_newline).drop_last() == saved_text(s, false),
{
    lemma_doc_lines_wf(s);
    let d = doc_lines(s);
    let l = d.last();
    let st = strip_terminator(l);
    let body = d.drop_last().flatten() + st;
    if ends_with_newline(l) {
        assert(l.drop_last().len() > 0 ==> st.last() == l.drop_last()[st.len() - 1]);
        assert(st.last() != '\n');
    } else {
        assert(st.last() == l[l.len() - 1]);
    }
    assert(body.last() == st.last());
    assert(body.push('\n').drop_last() =~= body);
}

} // verus!

verus! {

/// Writing a line and reading it back gives exactly what was written, when
/// what was written is one line for that place: no line feed but possibly a
/// last one, a last one unless the place is the final line, and some text
/// when the document has other lines.
pub proof fn law_set_then_get(s: Seq<char>, i: int, t: Seq<char>)
    requires
        0 <= i < doc_lines(s).len(),
        no_newline(t) || (ends_with_newline(t) && no_newline(t.drop_last())),
        i < doc_lines(s).len() - 1 ==> ends_with_newline(t),
        doc_lines(s).len() > 1 ==> t.len() > 0,
    ensures
        doc_lines(doc_lines(s).update(i, t).flatten())[i] == t,
        doc_lines(doc_lines(s).update(i, t).flatten()).len() == doc_lines(s).len(),
{
    let ls = doc_lines(s);
    lemma_doc_lines_wf(s);
    let u = ls.update(i, t);
    assert forall|j: int| 0 <= j < u.len() - 1 implies ends_with_newline(#[trigger] u[j])
        && no_newline(u[j].drop_last()) by {
        if j == i {
            assert(ends_with_newline(t));
        }
    }
    lemma_doc_unique(u);
}

/// Inserting a line without line feeds: the new line ends in a line feed,
/// there is one more line, the lines from `i` on move down by one, and the
/// lines before it stay, but for a line feed given to an unterminated last
/// line when inserting after it. On the empty document this holds for
/// inserting after its one line.
pub proof fn law_insert_line(s: Seq<char>, i: int, t: Seq<char>)
    requires
        0 <= i <= doc_lines(s).len(),
        no_newline(t),
        s.len() > 0 || i == doc_lines(s).len(),
    ensures
        ({
            let ls = doc_lines(s);
            let after = doc_lines(lines_after_insert(ls, i, t).flatten());
            &&& after.len() == ls.len() + 1
            &&& after[i] == t.push('\n')
            &&& ends_with_newline(after[i])
            &&& forall|j: int|
                0 <= j < i ==> after[j] == (if i == ls.len() && j == ls.len() - 1 {
                    with_newline(ls[j])
                } else {
                    ls[j]
                })
            &&& forall|j: int| i <= j < ls.len() ==> after[j + 1] == ls[j]
        }),
{
    let ls = doc_lines(s);
    lemma_doc_lines_wf(s);
    let line = with_newline(t);
    assert(line == t.push('\n'));
    assert(line.drop_last() =~= t);
    let u = lines_after_insert(ls, i, t);
    if i == ls.len() {
        let w = with_last_terminated(ls);
        assert(w.last() == with_newline(ls.last()));
        if !ends_with_newline(ls.last()) {
            assert(ls.last().push('\n').drop_last() =~= ls.last());
        }
        assert forall|j: int| 0 <= j < u.len() - 1 implies ends_with_newline(#[trigger] u[j])
            && no_newline(u[j].drop_last()) by {
            assert(u[j] == w[j]);
        }
        assert(u.last() == line);
    } else {
        if ls.len() == 1 {
            lemma_lines_of_wf(s);
            assert(ls.flatten() == ls[0] + ls.drop_first().flatten());
            assert(ls.drop_first() =~= Seq::<Seq<char>>::empty());
            assert(ls[0] =~= s);
        }
        assert forall|j: int| 0 <= j < u.len() - 1 implies ends_with_newline(#[trigger] u[j])
            && no_newline(u[j].drop_last()) by {
            if j > i {
                assert(u[j] == ls[j - 1]);
            }
        }
        assert(u.last() == ls.last());
    }
    lemma_doc_unique(u);
}

/// Removing a line from a document of two or more: one line fewer, the
/// others stay in order, and a line before the last goes with its line feed.
pub proof fn law_remove_line(s: Seq<char>, i: int)
    requires
        doc_lines(s).len() >= 2,
        0 <= i < doc_lines(s).len(),
    ensures
        ({
            let ls = doc_lines(s);
            let rest = ls.remove(i).flatten();
            &&& doc_lines(rest).len() == ls.len() - 1
            &&& doc_lines(rest) == ls.remove(i)
            &&& i < ls.len() - 1 ==> ends_with_newline(ls[i])
            &&& rest.len() == s.len() - ls[i].len()
        }),
{
    let ls = doc_lines(s);
    lemma_doc_lines_wf(s);
    let u = ls.remove(i);
    assert forall|j: int| 0 <= j < u.len() - 1 implies ends_with_newline(#[trigger] u[j])
        && no_newline(u[j].drop_last()) by {
        if j >= i {
            assert(u[j] == ls[j + 1]);
        }
    }
    if i == ls.len() - 1 {
        assert(u.last() == ls[ls.len() - 2]);
    } else {
        assert(u.last() == ls.last());
    }
    lemma_doc_unique(u);
    lemma_flatten_split(ls, i);
    lemma_flatten_split(u, i);
    assert(u.take(i) =~= ls.take(i));
    assert(u.skip(i) =~= ls.skip(i + 1));
}

} // verus!

verus! {

/// Saving and reading back keeps the document's lines: as many lines, each
/// the same once its terminator is set aside, and the reloaded text ends in
/// a line feed exactly when the flag was set. This holds when the last line
/// has text besides its terminator, and that text does not end in a lone
/// carriage return (which a reload would read as part of a `\r\n`).
pub proof fn law_save_round_trip(s: Seq<char>, trailing_newline: bool)
    requires
        strip_terminator(doc_lines(s).last()).len() > 0,
        strip_terminator(doc_lines(s).last()).last() != '\r',
    ensures
        ({
            let t = saved_text(s, trailing_newline);
            &&& doc_lines(t).len() == doc_lines(s).len()
            &&& forall|i: int|
                0 <= i < doc_lines(s).len() ==> strip_terminator(#[trigger] doc_lines(t)[i])
                    == strip_terminator(doc_lines(s)[i])
            &&& ends_with_newline(t) == trailing_newline
        }),
{
    lemma_doc_lines_wf(s);
    law_saved_text_ending(s, trailing_newline);
    let d = doc_lines(s);
    let n = d.len();
    let l = d.last();
    let st = strip_terminator(l);
    let last2 = if trailing_newline {
        st.push('\n')
    } else {
        st
    };
    let u = d.update(n - 1, last2);
    if ends_with_newline(l) {
        assert(no_newline(l.drop_last()));
        if l.drop_last().len() > 0 && l.drop_last().last() == '\r' {
            assert(no_newline(st)) by {
                assert forall|j: int| 0 <= j < st.len() implies st[j] != '\n' by {
                    assert(st[j] == l.drop_last()[j]);
                }
            }
        }
    }
    assert(no_newline(st));
    if trailing_newline {
        assert(last2.drop_last() =~= st);
    }
    assert forall|i: int| 0 <= i < u.len() - 1 implies ends_with_newline(#[trigger] u[i])
        && no_newline(u[i].drop_last()) by {
        assert(u[i] == d[i]);
    }
    lemma_flatten_split(u, n - 1);
    assert(u.skip(n - 1).drop_first() =~= Seq::<Seq<char>>::empty());
    assert(u.take(n - 1) =~= d.drop_last());
    assert(u.flatten() =~= saved_text(s, trailing_newline));
    lemma_doc_unique(u);
    assert forall|i: int| 0 <= i < n implies strip_terminator(#[trigger] doc_lines(
        saved_text(s, trailing_newline),
    )[i]) == strip_terminator(d[i]) by {
        if i == n - 1 {
            if trailing_newline {
                assert(strip_terminator(last2) == st);
            }
        }
    }
}

} // verus!
