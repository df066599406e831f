//! A line-indexed document held in a rope, with its backing path and its
//! trailing-newline flag.
use vstd::prelude::*;
use vstd::seq_lib::lemma_flatten_concat;
use crate::lines::{
    doc_lines, drop_trailing_cr, ends_with_newline, law_line_count_positive, lemma_doc_lines_wf,
    lemma_drop_trailing_cr, lemma_flatten_split, lemma_last_piece_empty, lemma_lines_of_wf,
    lines_after_insert, lines_of, normalize_crlf, saved_text, strip_terminator, with_newline,
};
use crate::syntax::{HighlightSpan, SupportedLanguage, SyntaxEngine, SyntaxTree};
use crate::rope::{
    chars_of, rope_from_str, rope_insert, rope_len_chars, rope_len_lines, rope_line,
    rope_line_to_char, rope_new, rope_remove, rope_text, rope_to_string, string_of,
};

verus! {

/// Where a document is saved, and whether its saved text ends in a line feed.
pub struct BufferMetadata {
    pub path: Option<String>,
    pub trailing_newline: bool,
}

/// Why a document operation was refused; the document is then unchanged.
#[derive(Debug, Clone, Copy, PartialEq, Eq, Structural)]
pub enum BufferError {
    /// The line index is past the lines that the operation accepts.
    LineOutOfBounds,
    /// The document has no backing path to save to.
    NoPath,
}

pub struct TextBuffer {
    rope: ropey::Rope,
    metadata: BufferMetadata,
}

impl TextBuffer {
    /// The characters of the document.
    pub closed spec fn text(&self) -> Seq<char> {
        rope_text(self.rope)
    }

    /// The backing path, if any.
    pub closed spec fn path(&self) -> Option<Seq<char>> {
        match self.metadata.path {
            Some(p) => Some(p@),
            None => None,
        }
    }

    /// The trailing-newline flag.
    pub closed spec fn trailing_newline(&self) -> bool {
        self.metadata.trailing_newline
    }

    /// The document's lines, each with its terminator if it has one.
    pub open spec fn lines(&self) -> Seq<Seq<char>> {
        doc_lines(self.text())
    }

    /// A document over loaded text: the flag records whether the text ends in a
    /// line feed.
    pub fn from_contents(path: Option<String>, contents: &str) -> (r: TextBuffer)
        ensures
            r.text() == contents@,
            r.path() == (match path {
                Some(p) => Some(p@),
                None => None,
            }),
            r.trailing_newline() == ends_with_newline(contents@),
    {
        let chars = chars_of(contents);
        let trailing = chars.len() > 0 && chars[chars.len() - 1] == '\n';
        TextBuffer {
            rope: rope_from_str(contents),
            metadata: BufferMetadata { path, trailing_newline: trailing },
        }
    }

    /// An empty in-memory document: one empty line, no path, flag off.
    pub fn empty() -> (r: TextBuffer)
        ensures
            r.text() == Seq::<char>::empty(),
            r.path() is None,
            !r.trailing_newline(),
            r.lines().len() == 1,
    {
        proof {
            law_line_count_positive(Seq::<char>::empty());
        }
        TextBuffer {
            rope: rope_new(),
            metadata: BufferMetadata { path: None, trailing_newline: false },
        }
    }

    /// Rewrites every two-character terminator `\r\n` to `\n` over the whole
    /// text, until none is left.
    pub fn normalize_newlines(&mut self)
        ensures
            final(self).text() == normalize_crlf(old(self).text()),
            final(self).path() == old(self).path(),
            final(self).trailing_newline() == old(self).trailing_newline(),
    {
        let s = rope_to_string(&self.rope);
        let c = chars_of(s.as_str());
        let mut out: Vec<char> = Vec::new();
        let mut i: usize = 0;
        proof {
            assert(c@.take(0) =~= Seq::<char>::empty());
        }
        while i < c.len()
            invariant
                0 <= i <= c.len(),
                c@ == old(self).text(),
                out@ == normalize_crlf(c@.take(i as int)),
            decreases c.len() - i,
        {
            proof {
                assert(c@.take(i + 1).drop_last() =~= c@.take(i as int));
            }
            if c[i] == '\n' {
                let ghost before = out@;
                while out.len() > 0 && out[out.len() - 1] == '\r'
                    invariant
                        drop_trailing_cr(out@) == drop_trailing_cr(before),
                    decreases out.len(),
                {
                    proof {
                        assert(out@.drop_last() == out@.subrange(0, out.len() - 1));
                    }
                    out.pop();
                }
                proof {
                    assert(drop_trailing_cr(out@) == out@);
                }
                out.push('\n');
            } else {
                out.push(c[i]);
            }
            i = i + 1;
        }
        proof {
            assert(c@.take(i as int) =~= c@);
        }
        let t = string_of(&out);
        self.rope = rope_from_str(t.as_str());
    }

    /// Whether the text ends in a line feed.
    fn ends_in_newline(&self) -> (b: bool)
        ensures
            b == ends_with_newline(self.text()),
    {
        let total = rope_len_lines(&self.rope);
        let len = rope_len_chars(&self.rope);
        proof {
            let ls = lines_of(self.text());
            lemma_lines_of_wf(self.text());
            lemma_last_piece_empty(self.text());
            lemma_flatten_split(ls, ls.len() - 1);
            assert(ls.skip(ls.len() - 1).drop_first() =~= Seq::<Seq<char>>::empty());
        }
        let last_start = rope_line_to_char(&self.rope, total - 1);
        len > 0 && last_start == len
    }

    /// The number of lines; a line feed at the very end opens no further line.
    pub fn line_count(&self) -> (n: usize)
        ensures
            n == self.lines().len(),
            n >= 1,
    {
        proof {
            law_line_count_positive(self.text());
            lemma_last_piece_empty(self.text());
        }
        let total = rope_len_lines(&self.rope);
        if self.ends_in_newline() {
            total - 1
        } else {
            total
        }
    }

    /// The number of characters.
    pub fn char_count(&self) -> (n: usize)
        ensures
            n == self.text().len(),
    {
        rope_len_chars(&self.rope)
    }

    /// Line `index` with its terminator, if it has one; `None` past the last line.
    pub fn get_line(&self, index: usize) -> (r: Option<String>)
        ensures
            match r {
                Some(l) => index < self.lines().len() && l@ == self.lines()[index as int],
                None => index >= self.lines().len(),
            },
    {
        if index >= self.line_count() {
            None
        } else {
            proof {
                lemma_doc_lines_wf(self.text());
            }
            Some(rope_line(&self.rope, index))
        }
    }

    /// Replaces line `index`, terminator included, by `text` as it is.
    pub fn set_line(&mut self, index: usize, text: &str) -> (r: Result<(), BufferError>)
        ensures
            r is Ok <==> index < old(self).lines().len(),
            r is Ok ==> final(self).text() == old(self).lines().update(
                index as int,
                text@,
            ).flatten(),
            r is Err ==> r == Err::<(), BufferError>(BufferError::LineOutOfBounds) && final(self).text() == old(self).text(),
            final(self).path() == old(self).path(),
            final(self).trailing_newline() == old(self).trailing_newline(),
    {
        if index >= self.line_count() {
            return Err(BufferError::LineOutOfBounds);
        }
        let ghost s = self.text();
        let ghost ls = doc_lines(s);
        proof {
            lemma_doc_lines_wf(s);
            lemma_last_piece_empty(s);
            assert(ls.take(index as int) == lines_of(s).take(index as int));
            assert(ls.take(index + 1) == lines_of(s).take(index + 1));
        }
        let start = rope_line_to_char(&self.rope, index);
        let end = rope_line_to_char(&self.rope, index + 1);
        proof {
            lemma_flatten_split(ls, index as int);
            lemma_flatten_split(ls, index + 1);
        }
        rope_remove(&mut self.rope, start, end);
        rope_insert(&mut self.rope, start, text);
        proof {
            let u = ls.update(index as int, text@);
            lemma_flatten_split(u, index as int);
            assert(u.take(index as int) =~= ls.take(index as int));
            assert(u.skip(index + 1) =~= ls.skip(index + 1));
            assert(s.take(start as int) =~= ls.take(index as int).flatten());
            assert(s.skip(end as int) =~= ls.skip(index + 1).flatten());
            assert(self.text() =~= u.flatten());
        }
        Ok(())
    }

    /// Inserts a line at `index` (up to `line_count()`), adding a line feed when
    /// `text` does not end in one; inserting after the last line first ends
    /// that line with a line feed if it has none.
    pub fn insert_line(&mut self, index: usize, text: &str) -> (r: Result<(), BufferError>)
        ensures
            r is Ok <==> index <= old(self).lines().len(),
            r is Ok ==> final(self).text() == lines_after_insert(
                old(self).lines(),
                index as int,
                text@,
            ).flatten(),
            r is Err ==> r == Err::<(), BufferError>(BufferError::LineOutOfBounds) && final(self).text() == old(self).text(),
            final(self).path() == old(self).path(),
            final(self).trailing_newline() == old(self).trailing_newline(),
    {
        let n = self.line_count();
        if index > n {
            return Err(BufferError::LineOutOfBounds);
        }
        let ghost s = self.text();
        let ghost ls = doc_lines(s);
        let line = terminated(text);
        proof {
            lemma_doc_lines_wf(s);
            lemma_last_piece_empty(s);
            lemma_flatten_split(ls, index as int);
        }
        if index == n {
            if !self.ends_in_newline() {
                let len = rope_len_chars(&self.rope);
                let nl = string_of(&vec!['\n']);
                rope_insert(&mut self.rope, len, nl.as_str());
                proof {
                    assert(s.take(len as int) =~= s);
                    assert(s.skip(len as int) =~= Seq::<char>::empty());
                    assert(nl@ =~= seq!['\n']);
                }
            }
            let ghost mid = self.text();
            let end = rope_len_chars(&self.rope);
            rope_insert(&mut self.rope, end, line.as_str());
            proof {
                let w = crate::lines::with_last_terminated(ls);
                lemma_flatten_split(ls, n - 1);
                lemma_flatten_split(w, n - 1);
                assert(ls.skip(n - 1).drop_first() =~= Seq::<Seq<char>>::empty());
                assert(w.skip(n - 1).drop_first() =~= Seq::<Seq<char>>::empty());
                assert(w.take(n - 1) =~= ls.take(n - 1));
                if ends_with_newline(s) {
                    assert(ls.last().len() > 0 && ls.last().last() == s.last());
                    assert(w =~= ls);
                } else {
                    if ls.last().len() > 0 {
                        assert(ls.last().last() == s.last());
                    }
                    assert(w[n - 1] == ls.last().push('\n'));
                    assert(mid =~= s.push('\n'));
                }
                assert(mid =~= w.flatten());
                let u = w.insert(index as int, line@);
                assert(u =~= w + seq![line@]);
                lemma_flatten_concat(w, seq![line@]);
                seq![line@].lemma_flatten_one_element();
                assert(mid.take(end as int) =~= mid);
                assert(mid.skip(end as int) =~= Seq::<char>::empty());
                assert(self.text() =~= u.flatten());
            }
        } else {
            proof {
                assert(ls.take(index as int) == lines_of(s).take(index as int));
            }
            let at = rope_line_to_char(&self.rope, index);
            rope_insert(&mut self.rope, at, line.as_str());
            proof {
                let u = ls.insert(index as int, line@);
                lemma_flatten_split(u, index as int);
                assert(u.take(index as int) =~= ls.take(index as int));
                assert(u.skip(index + 1) =~= ls.skip(index as int));
                assert(s.take(at as int) =~= ls.take(index as int).flatten());
                assert(s.skip(at as int) =~= ls.skip(index as int).flatten());
                assert(self.text() =~= u.flatten());
            }
        }
        Ok(())
    }

    /// Inserts a line after the last one, as `insert_line(line_count(), text)`.
    pub fn append_line(&mut self, text: &str) -> (r: Result<(), BufferError>)
        ensures
            r is Ok,
            final(self).text() == lines_after_insert(
                old(self).lines(),
                old(self).lines().len() as int,
                text@,
            ).flatten(),
            final(self).path() == old(self).path(),
            final(self).trailing_newline() == old(self).trailing_newline(),
    {
        let n = self.line_count();
        self.insert_line(n, text)
    }

    /// Deletes line `index` together with its terminator.
    pub fn remove_line(&mut self, index: usize) -> (r: Result<(), BufferError>)
        ensures
            r is Ok <==> index < old(self).lines().len(),
            r is Ok ==> final(self).text() == old(self).lines().remove(index as int).flatten(),
            r is Err ==> r == Err::<(), BufferError>(BufferError::LineOutOfBounds) && final(self).text() == old(self).text(),
            final(self).path() == old(self).path(),
            final(self).trailing_newline() == old(self).trailing_newline(),
    {
        if index >= self.line_count() {
            return Err(BufferError::LineOutOfBounds);
        }
        let ghost s = self.text();
        let ghost ls = doc_lines(s);
        proof {
            lemma_doc_lines_wf(s);
            lemma_last_piece_empty(s);
            assert(ls.take(index as int) == lines_of(s).take(index as int));
            assert(ls.take(index + 1) == lines_of(s).take(index + 1));
        }
        let start = rope_line_to_char(&self.rope, index);
        let end = rope_line_to_char(&self.rope, index + 1);
        proof {
            lemma_flatten_split(ls, index as int);
            lemma_flatten_split(ls, index + 1);
        }
        rope_remove(&mut self.rope, start, end);
        proof {
            let u = ls.remove(index as int);
            lemma_flatten_split(u, index as int);
            assert(u.take(index as int) =~= ls.take(index as int));
            assert(u.skip(index as int) =~= ls.skip(index + 1));
            assert(s.take(start as int) =~= ls.take(index as int).flatten());
            assert(s.skip(end as int) =~= ls.skip(index + 1).flatten());
            assert(self.text() =~= u.flatten());
        }
        Ok(())
    }

    /// The backing path and the text to write there: every line as stored but
    /// the last, whose terminator is left out, then one line feed when the
    /// trailing-newline flag is set.
    pub fn prepare_save(&self) -> (r: Result<(String, String), BufferError>)
        ensures
            r is Err <==> self.path() is None,
            r is Err ==> r == Err::<(String, String), BufferError>(BufferError::NoPath),
            r matches Ok((p, c)) ==> self.path() == Some(p@) && c@ == saved_text(
                self.text(),
                self.trailing_newline(),
            ),
    {
        let path = match &self.metadata.path {
            Some(p) => p.clone(),
            None => return Err(BufferError::NoPath),
        };
        let n = self.line_count();
        let ghost s = self.text();
        let ghost ls = doc_lines(s);
        proof {
            lemma_doc_lines_wf(s);
            lemma_last_piece_empty(s);
            assert(ls.take(n - 1) == lines_of(s).take(n - 1));
            lemma_flatten_split(ls, n - 1);
            assert(ls.skip(n - 1).drop_first() =~= Seq::<Seq<char>>::empty());
            assert(ls.drop_last() =~= ls.take(n - 1));
        }
        let start = rope_line_to_char(&self.rope, n - 1);
        let text = rope_to_string(&self.rope);
        let c = chars_of(text.as_str());
        let mut k: usize = c.len();
        proof {
            let l = ls.last();
            assert(c@ == ls.take(n - 1).flatten() + l);
            assert(c@.skip(start as int) =~= l);
        }
        if k > start && c[k - 1] == '\n' {
            k = k - 1;
            if k > start && c[k - 1] == '\r' {
                k = k - 1;
            }
        }
        proof {
            let l = ls.last();
            let st = strip_terminator(l);
            assert(c@.skip(start as int) == l);
            if ends_with_newline(l) {
                assert(l.last() == c@[c@.len() - 1]);
                if l.drop_last().len() > 0 {
                    assert(l.drop_last().last() == c@[c@.len() - 2]);
                }
            } else if l.len() > 0 {
                assert(l.last() == c@[c@.len() - 1]);
            }
            assert(st =~= l.take(k - start));
            assert(c@.take(k as int) =~= ls.take(n - 1).flatten() + st);
        }
        let mut out: Vec<char> = Vec::new();
        let mut j: usize = 0;
        while j < k
            invariant
                j <= k <= c.len(),
                out@ == c@.take(j as int),
            decreases k - j,
        {
            proof {
                assert(c@.take(j + 1) =~= c@.take(j as int).push(c@[j as int]));
            }
            out.push(c[j]);
            j = j + 1;
        }
        if self.metadata.trailing_newline {
            out.push('\n');
        }
        Ok((path, string_of(&out)))
    }

    /// Binds the document to `path`, then gives what `prepare_save` gives.
    pub fn prepare_save_as(&mut self, path: String) -> (r: Result<(String, String), BufferError>)
        ensures
            final(self).path() == Some(path@),
            final(self).text() == old(self).text(),
            final(self).trailing_newline() == old(self).trailing_newline(),
            r matches Ok((p, c)) && p@ == path@ && c@ == saved_text(
                old(self).text(),
                old(self).trailing_newline(),
            ),
    {
        self.metadata.path = Some(path);
        self.prepare_save()
    }

    /// A fresh parse of the current text under `language`'s grammar; `None`
    /// when parsing gives no tree.
    pub fn parse_syntax(&self, language: SupportedLanguage) -> (r: Option<SyntaxTree>) {
        let mut engine = SyntaxEngine::new(language);
        let text = rope_to_string(&self.rope);
        match engine.parse(text.as_str()) {
            Ok(t) => Some(t),
            Err(_) => None,
        }
    }

    /// The highlight spans of a fresh parse of the current text under
    /// `language`'s grammar, in pre-order; none when parsing gives no tree.
    pub fn extract_highlights(&self, language: SupportedLanguage) -> (r: Vec<HighlightSpan>) {
        let mut engine = SyntaxEngine::new(language);
        let text = rope_to_string(&self.rope);
        engine.extract_highlights(text.as_str())
    }

    /// Whether the saved text ends in a line feed.
    pub fn has_trailing_newline(&self) -> (r: bool)
        ensures
            r == self.trailing_newline(),
    {
        self.metadata.trailing_newline
    }

    /// Sets whether the saved text ends in a line feed.
    pub fn set_trailing_newline(&mut self, value: bool)
        ensures
            final(self).trailing_newline() == value,
            final(self).text() == old(self).text(),
            final(self).path() == old(self).path(),
    {
        self.metadata.trailing_newline = value;
    }
}

/// `text` with a line feed added when it does not end in one.
fn terminated(text: &str) -> (r: String)
    ensures
        r@ == with_newline(text@),
{
    let mut c = chars_of(text);
    if !(c.len() > 0 && c[c.len() - 1] == '\n') {
        c.push('\n');
    }
    string_of(&c)
}

} // verus!
