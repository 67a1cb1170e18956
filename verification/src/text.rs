//! Character-level text handling: lines, trimming, splitting, ordering.
use vstd::prelude::*;

verus! {

broadcast use vstd::string::group_string_axioms;

/// Whether a character has the Unicode `White_Space` property (listed in the
/// Unicode Character Database, PropList.txt): tab, line feed, vertical tab,
/// form feed, carriage return, space, next line, no-break space, Ogham space
/// mark, the spaces from en quad to hair space, line separator, paragraph
/// separator, narrow no-break space, medium mathematical space and
/// ideographic space.
pub open spec fn unicode_white_space(c: char) -> bool {
    ||| ('\u{9}' <= c && c <= '\u{d}')
    ||| c == '\u{20}'
    ||| c == '\u{85}'
    ||| c == '\u{a0}'
    ||| c == '\u{1680}'
    ||| ('\u{2000}' <= c && c <= '\u{200a}')
    ||| c == '\u{2028}'
    ||| c == '\u{2029}'
    ||| c == '\u{202f}'
    ||| c == '\u{205f}'
    ||| c == '\u{3000}'
}

/// Whether a character has the `White_Space` property, as
/// `char::is_whitespace` answers.
pub fn char_is_whitespace(c: char) -> (r: bool)
    ensures
        r == unicode_white_space(c),
{
    ('\u{9}' <= c && c <= '\u{d}') || c == '\u{20}' || c == '\u{85}' || c == '\u{a0}' || c == '\u{1680}' || (
    '\u{2000}' <= c && c <= '\u{200a}') || c == '\u{2028}' || c == '\u{2029}' || c == '\u{202f}' || c == '\u{205f}'
        || c == '\u{3000}'
}

/// Builds a `String` from characters with `FromIterator<char>`; the
/// contract claims that the string holds exactly those characters, in order.
#[verifier::external_body]
pub(crate) fn string_from_chars(cs: &[char]) -> (r: String)
    ensures
        r@ == cs@,
{
    cs.iter().collect()
}

/// The characters of a string, in order.
pub fn chars_of(s: &str) -> (r: Vec<char>)
    ensures
        r@ == s@,
{
    let mut v: Vec<char> = Vec::new();
    for c in it: s.chars()
        invariant
            it.seq() == s@,
            v@.len() == it.index(),
            forall|j: int| 0 <= j < v@.len() ==> v@[j] == s@[j],
    {
        v.push(c);
    }
    v
}

// ---------------------------------------------------------------------------
// Lines
// ---------------------------------------------------------------------------

/// A trailing carriage return removed, if there is one.
pub open spec fn strip_cr(s: Seq<char>) -> Seq<char> {
    if s.len() > 0 && s.last() == '\r' {
        s.drop_last()
    } else {
        s
    }
}

/// Reading a text left to right: the lines finished so far (each ended by
/// `'\n'`, with a `"\r\n"` ending removed as a whole) and the line still open.
pub open spec fn scan_lines(s: Seq<char>) -> (Seq<Seq<char>>, Seq<char>)
    decreases s.len(),
{
    if s.len() == 0 {
        (seq![], seq![])
    } else {
        let (done, cur) = scan_lines(s.drop_last());
        if s.last() == '\n' {
            (done.push(strip_cr(cur)), seq![])
        } else {
            (done, cur.push(s.last()))
        }
    }
}

/// The lines of a text as `str::lines` yields them: split at `'\n'` and at
/// `"\r\n"`; the final line ending is optional, so an empty text has no
/// lines and a text ending in a line ending has no empty last line.
pub open spec fn lines_of(s: Seq<char>) -> Seq<Seq<char>> {
    let (done, cur) = scan_lines(s);
    if cur.len() > 0 {
        done.push(cur)
    } else {
        done
    }
}

/// Once a text has ended a line, what follows is read on its own: its
/// finished lines are added to those before, and its open line is the open
/// line of the whole.
pub proof fn lemma_scan_after_line_end(s: Seq<char>, t: Seq<char>)
    requires
        scan_lines(s).1.len() == 0,
    ensures
        scan_lines(s + t) == (scan_lines(s).0 + scan_lines(t).0, scan_lines(t).1),
    decreases t.len(),
{
    if t.len() == 0 {
        assert(s + t =~= s);
        assert(scan_lines(s).0 + seq![] =~= scan_lines(s).0);
        assert(scan_lines(s).1 =~= Seq::<char>::empty());
    } else {
        lemma_scan_after_line_end(s, t.drop_last());
        assert((s + t).drop_last() =~= s + t.drop_last());
        assert((s + t).last() == t.last());
        let (d, c) = scan_lines(t.drop_last());
        if t.last() == '\n' {
            assert(scan_lines(s).0 + d.push(strip_cr(c)) =~= (scan_lines(s).0 + d).push(strip_cr(c)));
        }
    }
}

/// The line still open at the end of a text is empty exactly when the text
/// is empty or ends with a line break; otherwise it ends with the text's
/// last character.
pub proof fn lemma_open_line(a: Seq<char>)
    ensures
        scan_lines(a).1.len() == 0 <==> (a.len() == 0 || a.last() == '\n'),
        a.len() > 0 && a.last() != '\n' ==> scan_lines(a).1.last() == a.last(),
{
    if a.len() > 0 {
        assert(a.drop_last().push(a.last()) =~= a);
    }
}

/// After a text that has ended its last line, a line break opens an empty
/// line: the lines of the joined text are those of the first, an empty one,
/// and those of the second.
pub proof fn lemma_lines_of_joined_after_line_end(a: Seq<char>, b: Seq<char>)
    requires
        a.len() == 0 || a.last() == '\n',
    ensures
        lines_of(a + seq!['\n'] + b) == lines_of(a) + seq![Seq::<char>::empty()] + lines_of(b),
{
    lemma_open_line(a);
    let an = a + seq!['\n'];
    assert(an.drop_last() =~= a);
    assert(an.last() == '\n');
    let (d, c) = scan_lines(a);
    assert(c =~= Seq::<char>::empty());
    assert(strip_cr(c) =~= Seq::<char>::empty());
    assert(lines_of(a) == d);
    assert(scan_lines(an) == (d.push(Seq::<char>::empty()), Seq::<char>::empty()));
    lemma_scan_after_line_end(an, b);
    assert(an + b =~= a + seq!['\n'] + b);
    let (d2, c2) = scan_lines(b);
    assert(d.push(Seq::<char>::empty()) =~= d + seq![Seq::<char>::empty()]);
    if c2.len() > 0 {
        assert(d.push(Seq::<char>::empty()) + d2.push(c2) =~= (d.push(Seq::<char>::empty()) + d2).push(c2));
    }
}

/// The lines of two texts joined by a line break are the lines of the first
/// followed by those of the second, as long as the first ends with a
/// non-empty line that does not end in a carriage return.
pub proof fn lemma_lines_of_joined(a: Seq<char>, b: Seq<char>)
    requires
        a.len() > 0,
        a.last() != '\n',
        a.last() != '\r',
    ensures
        lines_of(a + seq!['\n'] + b) == lines_of(a) + lines_of(b),
{
    let an = a + seq!['\n'];
    assert(an.drop_last() =~= a);
    assert(an.last() == '\n');
    let (d, c) = scan_lines(a);
    assert(a.drop_last().push(a.last()) =~= a);
    assert(c == scan_lines(a.drop_last()).1.push(a.last()));
    assert(c.len() > 0 && c.last() == a.last());
    assert(strip_cr(c) == c);
    assert(scan_lines(an) == (d.push(c), Seq::<char>::empty()));
    lemma_scan_after_line_end(an, b);
    assert(an + b =~= a + seq!['\n'] + b);
    let (d2, c2) = scan_lines(b);
    if c2.len() > 0 {
        assert(d.push(c) + d2.push(c2) =~= (d.push(c) + d2).push(c2));
    }
}

/// Whether `t` is `s` with its leading and trailing white space removed:
/// a stretch of `s` outside which every character is white space, and which
/// neither starts nor ends with white space.
pub open spec fn is_trim_of(s: Seq<char>, t: Seq<char>) -> bool {
    exists|a: int, b: int|
        0 <= a <= b <= s.len() && t == #[trigger] s.subrange(a, b) && (forall|j: int|
            0 <= j < a ==> unicode_white_space(#[trigger] s[j])) && (forall|j: int|
            b <= j < s.len() ==> unicode_white_space(#[trigger] s[j])) && (t.len() > 0 ==> !unicode_white_space(t[0])
            && !unicode_white_space(t.last()))
}

proof fn lemma_trim_start_shape(s: Seq<char>) -> (a: int)
    ensures
        0 <= a <= s.len(),
        trim_start(s) == s.skip(a),
        forall|j: int| 0 <= j < a ==> unicode_white_space(#[trigger] s[j]),
        a < s.len() ==> !unicode_white_space(s[a]),
    decreases s.len(),
{
    if s.len() > 0 && unicode_white_space(s[0]) {
        let a1 = lemma_trim_start_shape(s.drop_first());
        assert forall|j: int| 0 <= j < a1 + 1 implies unicode_white_space(#[trigger] s[j]) by {
            if j > 0 {
                assert(s.drop_first()[j - 1] == s[j]);
            }
        }
        assert(s.drop_first().skip(a1) =~= s.skip(a1 + 1));
        a1 + 1
    } else {
        assert(s.skip(0) =~= s);
        0
    }
}

proof fn lemma_trim_end_shape(s: Seq<char>) -> (b: int)
    ensures
        0 <= b <= s.len(),
        trim_end(s) == s.take(b),
        forall|j: int| b <= j < s.len() ==> unicode_white_space(#[trigger] s[j]),
        b > 0 ==> !unicode_white_space(s[b - 1]),
    decreases s.len(),
{
    if s.len() > 0 && unicode_white_space(s.last()) {
        let b1 = lemma_trim_end_shape(s.drop_last());
        assert forall|j: int| b1 <= j < s.len() implies unicode_white_space(#[trigger] s[j]) by {
            if j < s.len() - 1 {
                assert(s.drop_last()[j] == s[j]);
            }
        }
        assert(s.drop_last().take(b1) =~= s.take(b1));
        b1
    } else {
        assert(s.take(s.len() as int) =~= s);
        s.len() as int
    }
}

/// Trimming removes exactly the white space at both ends of a text.
pub proof fn law_trim_removes_white_space_at_the_ends(s: Seq<char>)
    ensures
        is_trim_of(s, trim(s)),
{
    let a = lemma_trim_start_shape(s);
    let u = s.skip(a);
    let b = lemma_trim_end_shape(u);
    let t = trim(s);
    assert(t == u.take(b));
    assert(t =~= s.subrange(a, a + b));
    assert forall|j: int| a + b <= j < s.len() implies unicode_white_space(#[trigger] s[j]) by {
        assert(u[j - a] == s[j]);
    }
    if t.len() > 0 {
        assert(t[0] == s[a]);
        assert(t.last() == u[b - 1]);
    }
    assert(t == s.subrange(a, a + b));
}

/// Pieces joined back together with a separator between them.
pub open spec fn join_with(pieces: Seq<Seq<char>>, sep: char) -> Seq<char>
    decreases pieces.len(),
{
    if pieces.len() == 0 {
        seq![]
    } else if pieces.len() == 1 {
        pieces[0]
    } else {
        join_with(pieces.drop_last(), sep) + seq![sep] + pieces.last()
    }
}

proof fn lemma_scan_split_shape(s: Seq<char>, sep: char)
    ensures
        join_with(scan_split(s, sep).0.push(scan_split(s, sep).1), sep) == s,
        forall|i: int| 0 <= i < scan_split(s, sep).0.len() ==> !(#[trigger] scan_split(s, sep).0[i]).contains(sep),
        !scan_split(s, sep).1.contains(sep),
    decreases s.len(),
{
    if s.len() > 0 {
        let p = s.drop_last();
        lemma_scan_split_shape(p, sep);
        let (done, cur) = scan_split(p, sep);
        let all = done.push(cur);
        assert(p.push(s.last()) =~= s);
        if s.last() == sep {
            let n = done.push(cur).push(seq![]);
            assert(n.drop_last() == all);
            assert(join_with(n, sep) == join_with(all, sep) + seq![sep] + Seq::<char>::empty());
            assert(join_with(all, sep) + seq![sep] + Seq::<char>::empty() =~= s);
            assert(!Seq::<char>::empty().contains(sep));
            assert forall|i: int| 0 <= i < done.push(cur).len() implies !(#[trigger] done.push(cur)[i]).contains(sep) by {
                if i < done.len() {
                    assert(done.push(cur)[i] == done[i]);
                }
            }
        } else {
            let c2 = cur.push(s.last());
            let n = done.push(c2);
            assert(!c2.contains(sep)) by {
                if c2.contains(sep) {
                    let j = choose|j: int| 0 <= j < c2.len() && c2[j] == sep;
                    if j < cur.len() {
                        assert(cur[j] == sep);
                    }
                }
            }
            if done.len() == 0 {
                assert(join_with(n, sep) == c2);
                assert(join_with(all, sep) == cur);
                assert(c2 =~= s);
            } else {
                assert(n.drop_last() == done);
                assert(all.drop_last() == done);
                assert(join_with(n, sep) == join_with(done, sep) + seq![sep] + c2);
                assert(join_with(all, sep) == join_with(done, sep) + seq![sep] + cur);
                assert(join_with(done, sep) + seq![sep] + c2 =~= (join_with(done, sep) + seq![sep] + cur).push(s.last()));
            }
        }
    }
}

/// Splitting a text at a separator gives pieces that hold no separator and
/// that, joined back with it, give the text.
pub proof fn law_split_pieces_join_back(s: Seq<char>, sep: char)
    ensures
        join_with(split_at_char(s, sep), sep) == s,
        forall|i: int| 0 <= i < split_at_char(s, sep).len() ==> !(#[trigger] split_at_char(s, sep)[i]).contains(sep),
{
    lemma_scan_split_shape(s, sep);
    let (done, cur) = scan_split(s, sep);
    assert forall|i: int| 0 <= i < split_at_char(s, sep).len() implies !(#[trigger] split_at_char(s, sep)[i]).contains(sep) by {
        if i < done.len() {
            assert(split_at_char(s, sep)[i] == done[i]);
        }
    }
}

/// A line with a carriage return at its end taken off.
pub open spec fn without_cr(line: Seq<char>) -> Seq<char> {
    if line.len() > 0 && line.last() == '\r' {
        line.drop_last()
    } else {
        line
    }
}

proof fn lemma_scan_lines_split(s: Seq<char>)
    ensures
        scan_lines(s).0 == scan_split(s, '\n').0.map_values(|l: Seq<char>| without_cr(l)),
        scan_lines(s).1 == scan_split(s, '\n').1,
    decreases s.len(),
{
    if s.len() > 0 {
        lemma_scan_lines_split(s.drop_last());
        let (d, c) = scan_split(s.drop_last(), '\n');
        if s.last() == '\n' {
            assert(d.push(c).map_values(|l: Seq<char>| without_cr(l)) =~= d.map_values(|l: Seq<char>| without_cr(l)).push(
                without_cr(c),
            ));
            assert(strip_cr(c) == without_cr(c));
        }
    }
}

/// The lines of a text are its pieces between line feeds, each that a line
/// feed ends without a carriage return at its end; the last piece is a line
/// only when it is not empty.
pub proof fn law_lines_are_the_pieces_between_line_feeds(s: Seq<char>)
    ensures
        ({
            let p = split_at_char(s, '\n');
            let k = p.len() - 1;
            lines_of(s) == p.take(k).map_values(|l: Seq<char>| without_cr(l)) + (if p[k].len() > 0 {
                seq![p[k]]
            } else {
                Seq::<Seq<char>>::empty()
            })
        }),
{
    lemma_scan_lines_split(s);
    let (d, c) = scan_split(s, '\n');
    let p = split_at_char(s, '\n');
    assert(p.take(p.len() - 1) =~= d);
    assert(p[p.len() - 1] == c);
    let m = d.map_values(|l: Seq<char>| without_cr(l));
    if c.len() > 0 {
        assert(m.push(c) =~= m + seq![c]);
    } else {
        assert(m + Seq::<Seq<char>>::empty() =~= m);
    }
}

fn strip_cr_vec(v: Vec<char>) -> (r: Vec<char>)
    ensures
        r@ == strip_cr(v@),
{
    let mut v = v;
    if v.len() > 0 && v[v.len() - 1] == '\r' {
        v.pop();
    }
    v
}

/// Splits a text into its lines.
pub fn split_lines(s: &[char]) -> (r: Vec<Vec<char>>)
    ensures
        r.deep_view() == lines_of(s@),
{
    let mut done: Vec<Vec<char>> = Vec::new();
    let mut cur: Vec<char> = Vec::new();
    let mut i: usize = 0;
    while i < s.len()
        invariant
            i <= s@.len(),
            (done.deep_view(), cur@) == scan_lines(s@.take(i as int)),
        decreases s@.len() - i,
    {
        let c = s[i];
        assert(s@.take(i + 1).drop_last() == s@.take(i as int));
        if c == '\n' {
            let mut line: Vec<char> = Vec::new();
            std::mem::swap(&mut line, &mut cur);
            let line = strip_cr_vec(line);
            let ghost before = done.deep_view();
            done.push(line);
            assert(line.deep_view() =~= line@);
            assert(done.deep_view() =~= before.push(line@));
        } else {
            cur.push(c);
        }
        i += 1;
    }
    assert(s@.take(s@.len() as int) == s@);
    if cur.len() > 0 {
        let ghost before = done.deep_view();
        done.push(cur);
        assert(cur.deep_view() =~= cur@);
        assert(done.deep_view() =~= before.push(cur@));
    }
    done
}

// ---------------------------------------------------------------------------
// Trimming and splitting
// ---------------------------------------------------------------------------

/// Leading white space removed.
pub open spec fn trim_start(s: Seq<char>) -> Seq<char>
    decreases s.len(),
{
    if s.len() > 0 && unicode_white_space(s[0]) {
        trim_start(s.drop_first())
    } else {
        s
    }
}

/// Trailing white space removed.
pub open spec fn trim_end(s: Seq<char>) -> Seq<char>
    decreases s.len(),
{
    if s.len() > 0 && unicode_white_space(s.last()) {
        trim_end(s.drop_last())
    } else {
        s
    }
}

/// Leading and trailing white space removed, as `str::trim` does.
pub open spec fn trim(s: Seq<char>) -> Seq<char> {
    trim_end(trim_start(s))
}

proof fn lemma_trim_start_skip(s: Seq<char>, k: int)
    requires
        0 <= k <= s.len(),
        forall|j: int| 0 <= j < k ==> unicode_white_space(#[trigger] s[j]),
    ensures
        trim_start(s) == trim_start(s.skip(k)),
    decreases k,
{
    if k > 0 {
        assert(unicode_white_space(s[0]));
        assert(s.skip(1) == s.drop_first());
        assert forall|j: int| 0 <= j < k - 1 implies unicode_white_space(#[trigger] s.skip(1)[j]) by {
            assert(s.skip(1)[j] == s[j + 1]);
        }
        lemma_trim_start_skip(s.skip(1), k - 1);
        assert(s.skip(1).skip(k - 1) == s.skip(k));
    } else {
        assert(s.skip(0) == s);
    }
}

proof fn lemma_trim_end_take(s: Seq<char>, k: int)
    requires
        0 <= k <= s.len(),
        forall|j: int| k <= j < s.len() ==> unicode_white_space(#[trigger] s[j]),
    ensures
        trim_end(s) == trim_end(s.take(k)),
    decreases s.len() - k,
{
    if k < s.len() {
        assert(s.take(s.len() - 1) == s.drop_last());
        let t = s.drop_last();
        assert forall|j: int| k <= j < t.len() implies unicode_white_space(#[trigger] t[j]) by {
            assert(t[j] == s[j]);
        }
        lemma_trim_end_take(t, k);
        assert(t.take(k) == s.take(k));
    } else {
        assert(s.take(k) == s);
    }
}

/// Removes leading and trailing white space.
pub fn trim_chars(s: &[char]) -> (r: Vec<char>)
    ensures
        r@ == trim(s@),
{
    let mut a: usize = 0;
    while a < s.len() && char_is_whitespace(s[a])
        invariant
            a <= s@.len(),
            forall|j: int| 0 <= j < a ==> unicode_white_space(#[trigger] s@[j]),
        decreases s@.len() - a,
    {
        a += 1;
    }
    proof {
        lemma_trim_start_skip(s@, a as int);
    }
    let ghost t = s@.skip(a as int);
    assert(t.len() == 0 || !unicode_white_space(t[0]));
    assert(trim_start(t) == t);
    let mut b: usize = s.len();
    while b > a && char_is_whitespace(s[b - 1])
        invariant
            a <= b <= s@.len(),
            t == s@.skip(a as int),
            forall|j: int| b - a <= j < t.len() ==> unicode_white_space(#[trigger] t[j]),
        decreases b,
    {
        b -= 1;
    }
    proof {
        lemma_trim_end_take(t, b - a);
        let u = t.take(b - a);
        assert(u.len() == 0 || !unicode_white_space(u.last()));
    }
    let mut r: Vec<char> = Vec::new();
    let mut i: usize = a;
    while i < b
        invariant
            a <= i <= b <= s@.len(),
            r@ == s@.subrange(a as int, i as int),
        decreases b - i,
    {
        r.push(s[i]);
        assert(s@.subrange(a as int, i + 1) == s@.subrange(a as int, i as int).push(s@[i as int]));
        i += 1;
    }
    assert(r@ == t.take(b - a));
    r
}

/// Reading a text left to right, split at a separator: the pieces finished
/// so far and the piece still open.
pub open spec fn scan_split(s: Seq<char>, sep: char) -> (Seq<Seq<char>>, Seq<char>)
    decreases s.len(),
{
    if s.len() == 0 {
        (seq![], seq![])
    } else {
        let (done, cur) = scan_split(s.drop_last(), sep);
        if s.last() == sep {
            (done.push(cur), seq![])
        } else {
            (done, cur.push(s.last()))
        }
    }
}

/// The pieces of a text between occurrences of a separator, as `str::split`
/// yields them: there is always one piece more than separators.
pub open spec fn split_at_char(s: Seq<char>, sep: char) -> Seq<Seq<char>> {
    let (done, cur) = scan_split(s, sep);
    done.push(cur)
}

/// Splits a text at every occurrence of a separator.
pub fn split_chars(s: &[char], sep: char) -> (r: Vec<Vec<char>>)
    ensures
        r.deep_view() == split_at_char(s@, sep),
{
    let mut done: Vec<Vec<char>> = Vec::new();
    let mut cur: Vec<char> = Vec::new();
    let mut i: usize = 0;
    while i < s.len()
        invariant
            i <= s@.len(),
            (done.deep_view(), cur@) == scan_split(s@.take(i as int), sep),
        decreases s@.len() - i,
    {
        let c = s[i];
        assert(s@.take(i + 1).drop_last() == s@.take(i as int));
        if c == sep {
            let mut piece: Vec<char> = Vec::new();
            std::mem::swap(&mut piece, &mut cur);
            let ghost before = done.deep_view();
            done.push(piece);
            assert(piece.deep_view() =~= piece@);
            assert(done.deep_view() =~= before.push(piece@));
        } else {
            cur.push(c);
        }
        i += 1;
    }
    assert(s@.take(s@.len() as int) == s@);
    let ghost before = done.deep_view();
    done.push(cur);
    assert(cur.deep_view() =~= cur@);
    assert(done.deep_view() =~= before.push(cur@));
    done
}

} // verus!
