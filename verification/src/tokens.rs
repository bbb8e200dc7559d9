use vstd::prelude::*;

use crate::text::{
    char_pieces, chars_of, is_whitespace, split_chars, split_on, string_of, string_views,
    whitespace_char,
};

verus! {

/// The words of `p`: its longest runs of chars that are not whitespace, in
/// order.
pub open spec fn words(p: Seq<char>) -> Seq<Seq<char>>
    decreases p.len(),
{
    if p.len() == 0 {
        seq![]
    } else {
        let w = words(p.drop_last());
        let c = p.last();
        if whitespace_char(c) {
            w
        } else if p.len() == 1 || whitespace_char(p[p.len() - 2]) {
            w.push(seq![c])
        } else {
            w.update(w.len() - 1, w.last().push(c))
        }
    }
}

/// The directive whose lines are passed over.
pub open spec fn include_marker() -> Seq<char> {
    seq!['$', 'I', 'N', 'C', 'L', 'U', 'D', 'E']
}

/// Whether `p` holds the include directive anywhere.
pub open spec fn has_include(p: Seq<char>) -> bool {
    exists|i: int| 0 <= i && i + 8 <= p.len() && #[trigger] p.subrange(i, i + 8) == include_marker()
}

/// The part of a line before its first `;` (a comment follows it).
pub open spec fn before_comment(line: Seq<char>) -> Seq<char> {
    split_on(line, ';')[0]
}

/// The words of one line of a zone file: none where the line holds an
/// include directive, else the words before the comment.
pub open spec fn line_tokens(line: Seq<char>) -> Seq<Seq<char>> {
    let p = before_comment(line);
    if has_include(p) {
        seq![]
    } else {
        words(p)
    }
}

/// The sequences one after the other.
pub open spec fn concat<A>(ss: Seq<Seq<A>>) -> Seq<A>
    decreases ss.len(),
{
    if ss.len() == 0 {
        seq![]
    } else {
        concat(ss.drop_last()) + ss.last()
    }
}

/// The words of a zone file, line after line.
pub open spec fn zone_words(content: Seq<char>) -> Seq<Seq<char>> {
    concat(split_on(content, '\n').map_values(|l: Seq<char>| line_tokens(l)))
}

/// Whether a word is the last of those read so far, still open.
spec fn word_open(p: Seq<char>, i: int) -> bool {
    i > 0 && !whitespace_char(p[i - 1])
}

proof fn lemma_words_open(p: Seq<char>)
    ensures
        p.len() > 0 && !whitespace_char(p.last()) ==> words(p).len() > 0,
    decreases p.len(),
{
    if p.len() > 0 {
        lemma_words_open(p.drop_last());
    }
}

/// The words of `p`.
fn words_of(p: &[char]) -> (r: Vec<String>)
    ensures
        string_views(r@) == words(p@),
{
    let mut done: Vec<String> = Vec::new();
    let mut cur: Vec<char> = Vec::new();
    let n = p.len();
    let mut i: usize = 0;
    while i < n
        invariant
            n == p@.len(),
            i <= n,
            cur@.len() > 0 <==> word_open(p@, i as int),
            cur@.len() > 0 ==> words(p@.take(i as int)) == string_views(done@).push(cur@),
            cur@.len() == 0 ==> words(p@.take(i as int)) == string_views(done@),
        decreases n - i,
    {
        let c = p[i];
        let ghost pre = p@.take(i as int);
        let ghost post = p@.take(i + 1);
        assert(post.drop_last() =~= pre);
        assert(post.last() == c);
        if i > 0 {
            assert(post[post.len() - 2] == p@[i - 1]);
        }
        if is_whitespace(c) {
            if cur.len() > 0 {
                let s = string_of(cur.as_slice());
                let ghost before = string_views(done@);
                done.push(s);
                cur = Vec::new();
                assert(string_views(done@) =~= before.push(s@));
            }
        } else {
            let ghost before = string_views(done@);
            if cur.len() > 0 {
                proof {
                    lemma_words_open(pre);
                }
                cur.push(c);
                assert(words(post) =~= before.push(cur@));
            } else {
                cur.push(c);
                assert(cur@ =~= seq![c]);
                assert(words(post) =~= before.push(cur@));
            }
        }
        i = i + 1;
    }
    assert(p@.take(n as int) =~= p@);
    if cur.len() > 0 {
        let s = string_of(cur.as_slice());
        let ghost before = string_views(done@);
        done.push(s);
        assert(string_views(done@) =~= before.push(s@));
    }
    done
}

/// Whether `p` holds the include directive anywhere.
fn contains_include(p: &[char]) -> (r: bool)
    ensures
        r == has_include(p@),
{
    let n = p.len();
    if n < 8 {
        return false;
    }
    let mut i: usize = 0;
    while i <= n - 8
        invariant
            n == p@.len(),
            n >= 8,
            i <= n - 7,
            forall|j: int| 0 <= j < i ==> #[trigger] p@.subrange(j, j + 8) != include_marker(),
        decreases n - i,
    {
        if p[i] == '$' && p[i + 1] == 'I' && p[i + 2] == 'N' && p[i + 3] == 'C' && p[i + 4] == 'L'
            && p[i + 5] == 'U' && p[i + 6] == 'D' && p[i + 7] == 'E' {
            assert(p@.subrange(i as int, i + 8) =~= include_marker());
            return true;
        }
        assert(p@.subrange(i as int, i + 8) != include_marker()) by {
            let s = p@.subrange(i as int, i + 8);
            if s == include_marker() {
                assert(s[0] == p@[i as int] && s[1] == p@[i + 1] && s[2] == p@[i + 2] && s[3]
                    == p@[i + 3] && s[4] == p@[i + 4] && s[5] == p@[i + 5] && s[6] == p@[i + 6]
                    && s[7] == p@[i + 7]);
            }
        }
        i = i + 1;
    }
    false
}

/// The words of a zone file, in order: lines holding an include directive
/// give none, and each line's words end at its first `;`.
pub fn zone_tokens(content: &str) -> (r: Vec<String>)
    ensures
        string_views(r@) == zone_words(content@),
{
    let chars = chars_of(content);
    let lines = split_chars(chars.as_slice(), '\n');
    let ghost pieces = char_pieces(lines@);
    let ghost per_line = pieces.map_values(|l: Seq<char>| line_tokens(l));
    let mut out: Vec<String> = Vec::new();
    let n = lines.len();
    let mut i: usize = 0;
    while i < n
        invariant
            n == lines@.len(),
            pieces == char_pieces(lines@),
            pieces == split_on(content@, '\n'),
            per_line == pieces.map_values(|l: Seq<char>| line_tokens(l)),
            i <= n,
            string_views(out@) == concat(per_line.take(i as int)),
        decreases n - i,
    {
        let line = &lines[i];
        assert(pieces[i as int] == line@);
        let parts = split_chars(line.as_slice(), ';');
        proof {
            crate::text::lemma_split_on_nonempty(line@, ';');
        }
        let head = &parts[0];
        assert(char_pieces(parts@)[0] == head@);
        let ghost before = string_views(out@);
        if !contains_include(head.as_slice()) {
            let mut w = words_of(head.as_slice());
            let ghost wv = string_views(w@);
            out.append(&mut w);
            assert(string_views(out@) =~= before + wv);
        } else {
            assert(line_tokens(line@) =~= Seq::<Seq<char>>::empty());
            assert(string_views(out@) =~= before + line_tokens(line@));
        }
        assert(per_line.take(i + 1).drop_last() =~= per_line.take(i as int));
        assert(per_line.take(i + 1).last() == line_tokens(line@));
        i = i + 1;
    }
    assert(per_line.take(n as int) =~= per_line);
    out
}

// ---------------------------------------------------------------------------
// What the words of a zone file are like
// ---------------------------------------------------------------------------

/// A word as the zone reader sees one: not empty, without whitespace, a
/// comment sign or a line break.
pub open spec fn clean_word(w: Seq<char>) -> bool {
    &&& w.len() > 0
    &&& forall|j: int|
        0 <= j < w.len() ==> !whitespace_char(#[trigger] w[j]) && w[j] != ';' && w[j] != '\n'
}

/// Chars without a comment sign or a line break.
spec fn plain(p: Seq<char>) -> bool {
    forall|j: int| 0 <= j < p.len() ==> #[trigger] p[j] != ';' && p[j] != '\n'
}

proof fn lemma_words_clean(p: Seq<char>)
    requires
        plain(p),
    ensures
        forall|i: int| 0 <= i < words(p).len() ==> clean_word(#[trigger] words(p)[i]),
    decreases p.len(),
{
    if p.len() > 0 {
        let q = p.drop_last();
        assert(plain(q)) by {
            assert forall|j: int| 0 <= j < q.len() implies #[trigger] q[j] != ';' && q[j] != '\n' by {
                assert(q[j] == p[j]);
            }
        }
        lemma_words_clean(q);
        lemma_words_open(p);
        let w = words(q);
        let c = p.last();
        assert(c == p[p.len() - 1]);
        if !whitespace_char(c) && !(p.len() == 1 || whitespace_char(p[p.len() - 2])) {
            lemma_words_open(q);
            assert(q.last() == p[p.len() - 2]);
            let last = w.last().push(c);
            assert(clean_word(w[w.len() - 1]));
            assert forall|j: int| 0 <= j < last.len() implies !whitespace_char(#[trigger] last[j])
                && last[j] != ';' && last[j] != '\n' by {
                if j < last.len() - 1 {
                    assert(last[j] == w[w.len() - 1][j]);
                }
            }
        }
    }
}

/// A line's words are clean.
proof fn lemma_line_tokens_clean(line: Seq<char>)
    requires
        forall|j: int| 0 <= j < line.len() ==> #[trigger] line[j] != '\n',
    ensures
        forall|i: int| 0 <= i < line_tokens(line).len() ==> clean_word(#[trigger] line_tokens(line)[i]),
{
    let pieces = split_on(line, ';');
    crate::text::lemma_split_on_nonempty(line, ';');
    crate::text::lemma_split_on_pieces_lack_sep(line, ';');
    lemma_split_lacks(line, ';', '\n');
    let p = pieces[0];
    assert(plain(p)) by {
        assert forall|j: int| 0 <= j < p.len() implies #[trigger] p[j] != ';' && p[j] != '\n' by {
            assert(pieces[0][j] != ';');
        }
    }
    lemma_words_clean(p);
}

/// A char missing from what is split is missing from every piece.
proof fn lemma_split_lacks(s: Seq<char>, sep: char, x: char)
    requires
        forall|j: int| 0 <= j < s.len() ==> #[trigger] s[j] != x,
    ensures
        forall|i: int, j: int|
            0 <= i < split_on(s, sep).len() && 0 <= j < split_on(s, sep)[i].len() ==> #[trigger] split_on(
                s,
                sep,
            )[i][j] != x,
    decreases s.len(),
{
    if s.len() > 0 {
        let q = s.drop_last();
        assert forall|j: int| 0 <= j < q.len() implies #[trigger] q[j] != x by {
            assert(q[j] == s[j]);
        }
        lemma_split_lacks(q, sep, x);
        crate::text::lemma_split_on_nonempty(q, sep);
        let prev = split_on(q, sep);
        assert(s.last() == s[s.len() - 1]);
        assert forall|i: int, j: int|
            0 <= i < split_on(s, sep).len() && 0 <= j < split_on(s, sep)[i].len() implies #[trigger] split_on(
                s,
                sep,
            )[i][j] != x by {
            if s.last() != sep && i == prev.len() - 1 && j < prev[i].len() {
                assert(split_on(s, sep)[i][j] == prev[i][j]);
            }
        }
    }
}

/// Every word of a concatenation is a word of one of its parts.
proof fn lemma_concat_clean(ss: Seq<Seq<Seq<char>>>)
    requires
        forall|a: int, b: int| 0 <= a < ss.len() && 0 <= b < ss[a].len() ==> clean_word(#[trigger] ss[a][b]),
    ensures
        forall|i: int| 0 <= i < concat(ss).len() ==> clean_word(#[trigger] concat(ss)[i]),
    decreases ss.len(),
{
    if ss.len() > 0 {
        let q = ss.drop_last();
        assert forall|a: int, b: int| 0 <= a < q.len() && 0 <= b < q[a].len() implies clean_word(#[trigger] q[a][b]) by {
            assert(q[a] == ss[a]);
        }
        lemma_concat_clean(q);
        let c = concat(ss);
        let n = concat(q).len();
        assert forall|i: int| 0 <= i < c.len() implies clean_word(#[trigger] c[i]) by {
            if i < n {
                assert(c[i] == concat(q)[i]);
            } else {
                assert(c[i] == ss[ss.len() - 1][i - n]);
            }
        }
    }
}

/// The words that a zone file is read into are never empty and never hold
/// whitespace, a comment sign or a line break.
pub proof fn law_zone_words_clean(content: Seq<char>)
    ensures
        forall|i: int| 0 <= i < zone_words(content).len() ==> clean_word(#[trigger] zone_words(content)[i]),
{
    let lines = split_on(content, '\n');
    crate::text::lemma_split_on_pieces_lack_sep(content, '\n');
    let per_line = lines.map_values(|l: Seq<char>| line_tokens(l));
    assert forall|a: int, b: int| 0 <= a < per_line.len() && 0 <= b < per_line[a].len() implies clean_word(
        #[trigger] per_line[a][b],
    ) by {
        assert forall|j: int| 0 <= j < lines[a].len() implies #[trigger] lines[a][j] != '\n' by {
            assert(split_on(content, '\n')[a][j] != '\n');
        }
        lemma_line_tokens_clean(lines[a]);
    }
    lemma_concat_clean(per_line);
}

} // verus!
