use vstd::prelude::*;
use vstd::std_specs::iter::IteratorSpec;

verus! {

// ---------------------------------------------------------------------------
// From a backtrace's text to the callers on it
// ---------------------------------------------------------------------------

/// A character of Unicode's `White_Space` property, which `str::split_whitespace` splits at.
pub open spec fn is_ws(c: char) -> bool {
    let n = c as int;
    (9 <= n <= 13) || n == 32 || n == 0x85 || n == 0xa0 || n == 0x1680 || (0x2000 <= n <= 0x200a)
        || n == 0x2028 || n == 0x2029 || n == 0x202f || n == 0x205f || n == 0x3000
}

/// `s` with every backslash made a slash.
pub open spec fn slashed(s: Seq<char>) -> Seq<char> {
    s.map_values(|c: char| if c == '\\' { '/' } else { c })
}

/// A line without the one carriage return that may end it.
pub open spec fn strip_cr(l: Seq<char>) -> Seq<char> {
    if l.len() > 0 && l.last() == '\r' {
        l.drop_last()
    } else {
        l
    }
}

/// The lines of the first `n` characters of `s`, as `str::lines` cuts them: the pieces between
/// line feeds, a piece that a line feed ends without the carriage return before it; the last
/// piece, still open, is there even where it is empty.
pub open spec fn pieces(s: Seq<char>, n: nat) -> Seq<Seq<char>>
    decreases n,
{
    if n == 0 {
        seq![Seq::empty()]
    } else {
        let p = pieces(s, (n - 1) as nat);
        if s[n - 1] == '\n' {
            p.update(p.len() - 1, strip_cr(p.last())).push(Seq::empty())
        } else {
            p.update(p.len() - 1, p.last().push(s[n - 1]))
        }
    }
}

/// The text before a frame's source location: `"at ./"`.
pub open spec fn at_dot() -> Seq<char> {
    seq!['a', 't', ' ', '.', '/']
}

/// A crate's source folder in a path: `"/src/"`.
pub open spec fn src_dir() -> Seq<char> {
    seq!['/', 's', 'r', 'c', '/']
}

/// `p` occurs in `s` at `i`.
pub open spec fn occurs_at(s: Seq<char>, p: Seq<char>, i: int) -> bool {
    0 <= i && i + p.len() <= s.len() && s.subrange(i, i + p.len()) == p
}

/// `p` occurs in `s`.
pub open spec fn has_sub(s: Seq<char>, p: Seq<char>) -> bool {
    exists|i: int| occurs_at(s, p, i)
}

/// A line of a backtrace that names a source location of the crate.
pub open spec fn is_frame_line(l: Seq<char>) -> bool {
    has_sub(l, at_dot()) && has_sub(l, src_dir())
}

/// The frame lines among `ls`, one after another.
pub open spec fn joined_frames(ls: Seq<Seq<char>>) -> Seq<char>
    decreases ls.len(),
{
    if ls.len() == 0 {
        Seq::empty()
    } else {
        joined_frames(ls.drop_last()) + if is_frame_line(ls.last()) {
            ls.last()
        } else {
            Seq::empty()
        }
    }
}

/// `s` with every occurrence of `"at ./"` taken out, left to right.
pub open spec fn without_at(s: Seq<char>) -> Seq<char>
    decreases s.len(),
{
    if s.len() == 0 {
        s
    } else if occurs_at(s, at_dot(), 0) {
        without_at(s.skip(5))
    } else {
        seq![s[0]] + without_at(s.skip(1))
    }
}

/// The words of `s` after the partial word `cur`: the longest runs without white space.
pub open spec fn words_after(s: Seq<char>, cur: Seq<char>) -> Seq<Seq<char>>
    decreases s.len(),
{
    if s.len() == 0 {
        if cur.len() > 0 {
            seq![cur]
        } else {
            Seq::empty()
        }
    } else if is_ws(s[0]) {
        if cur.len() > 0 {
            seq![cur] + words_after(s.skip(1), Seq::empty())
        } else {
            words_after(s.skip(1), Seq::empty())
        }
    } else {
        words_after(s.skip(1), cur.push(s[0]))
    }
}

/// `s` with each run of equal neighbours kept once.
pub open spec fn dedup<A>(s: Seq<A>) -> Seq<A>
    decreases s.len(),
{
    if s.len() == 0 {
        s
    } else {
        let d = dedup(s.drop_last());
        if d.len() > 0 && d.last() == s.last() {
            d
        } else {
            d.push(s.last())
        }
    }
}

/// The callers on a backtrace's text `t`, outermost first: the words of its frame lines, with
/// backslashes made slashes and `"at ./"` taken out, the innermost one dropped and repeats in
/// a row kept once; one empty caller where none is left.
pub open spec fn callers_of(t: Seq<char>) -> Seq<Seq<char>> {
    let s = slashed(t);
    let w = words_after(without_at(joined_frames(pieces(s, s.len()))), Seq::empty());
    let inner_out = if w.len() == 0 {
        w
    } else {
        w.skip(1)
    };
    let d = dedup(inner_out.reverse());
    if d.len() == 0 {
        seq![Seq::empty()]
    } else {
        d
    }
}

/// The characters of `s`.
fn chars_of(s: &str) -> (r: Vec<char>)
    ensures
        r@ == s@,
{
    broadcast use vstd::string::group_string_axioms;

    let mut it = s.chars();
    let ghost total = s@;
    let mut r: Vec<char> = Vec::new();
    loop
        invariant
            it.obeys_prophetic_iter_laws(),
            it.decrease() is Some,
            total == s@,
            ({
                let done = (total.len() - it.remaining().len()) as int;
                &&& 0 <= done <= total.len()
                &&& it.remaining() == total.subrange(done, total.len() as int)
                &&& r@ == total.subrange(0, done)
            }),
        ensures
            r@ == total,
        decreases it.decrease()->0,
    {
        match it.next() {
            None => {
                break;
            },
            Some(c) => {
                r.push(c);
            },
        }
    }
    r
}

/// `s` with every backslash made a slash.
fn slash(s: &Vec<char>) -> (r: Vec<char>)
    ensures
        r@ == slashed(s@),
{
    let mut r: Vec<char> = Vec::new();
    let mut i: usize = 0;
    while i < s.len()
        invariant
            i <= s.len(),
            r@ == slashed(s@.take(i as int)),
        decreases s.len() - i,
    {
        let c = s[i];
        r.push(if c == '\\' { '/' } else { c });
        i = i + 1;
        assert(r@ =~= slashed(s@.take(i as int)));
    }
    assert(s@.take(i as int) =~= s@);
    r
}

/// The lines of `s`, as `pieces` says.
fn lines_of(s: &Vec<char>) -> (r: Vec<Vec<char>>)
    ensures
        r@.map_values(|l: Vec<char>| l@) == pieces(s@, s@.len()),
{
    let mut closed: Vec<Vec<char>> = Vec::new();
    let mut cur: Vec<char> = Vec::new();
    let mut i: usize = 0;
    while i < s.len()
        invariant
            i <= s.len(),
            closed@.map_values(|l: Vec<char>| l@).push(cur@) == pieces(s@, i as nat),
        decreases s.len() - i,
    {
        let c = s[i];
        let ghost before = closed@.map_values(|l: Vec<char>| l@).push(cur@);
        if c == '\n' {
            if cur.len() > 0 && cur[cur.len() - 1] == '\r' {
                cur.pop();
            }
            let mut line: Vec<char> = Vec::new();
            std::mem::swap(&mut line, &mut cur);
            closed.push(line);
            proof {
                assert(closed@.map_values(|l: Vec<char>| l@).push(cur@) =~= before.update(
                    before.len() - 1,
                    strip_cr(before.last()),
                ).push(Seq::empty()));
            }
        } else {
            cur.push(c);
            proof {
                assert(closed@.map_values(|l: Vec<char>| l@).push(cur@) =~= before.update(
                    before.len() - 1,
                    before.last().push(c),
                ));
            }
        }
        i = i + 1;
    }
    closed.push(cur);
    closed
}

/// Whether `p` occurs in `s` at `i`.
fn occurs_exec(s: &Vec<char>, p: &Vec<char>, i: usize) -> (r: bool)
    requires
        i + p.len() <= s.len(),
    ensures
        r == occurs_at(s@, p@, i as int),
{
    let mut k: usize = 0;
    while k < p.len()
        invariant
            k <= p.len(),
            i + p.len() <= s.len(),
            forall|q: int| 0 <= q < k ==> s@[i + q] == p@[q],
        decreases p.len() - k,
    {
        if s[i + k] != p[k] {
            assert(s@.subrange(i as int, i + p.len())[k as int] != p@[k as int]);
            return false;
        }
        k = k + 1;
    }
    assert(s@.subrange(i as int, i + p.len()) =~= p@);
    true
}

/// Whether `p` occurs in `s`.
fn has_sub_exec(s: &Vec<char>, p: &Vec<char>) -> (r: bool)
    ensures
        r == has_sub(s@, p@),
{
    if p.len() > s.len() {
        return false;
    }
    let last = s.len() - p.len();
    let mut i: usize = 0;
    while i < last
        invariant
            last == s.len() - p.len(),
            i <= last,
            forall|j: int| 0 <= j < i ==> !occurs_at(s@, p@, j),
        decreases last - i,
    {
        if occurs_exec(s, p, i) {
            return true;
        }
        i = i + 1;
    }
    if occurs_exec(s, p, last) {
        return true;
    }
    assert forall|j: int| !occurs_at(s@, p@, j) by {
        if 0 <= j < i {
        }
    }
    false
}

/// The frame lines of `ls`, one after another, as `joined_frames` says.
fn join_frames(ls: &Vec<Vec<char>>, at: &Vec<char>, src: &Vec<char>) -> (r: Vec<char>)
    requires
        at@ == at_dot(),
        src@ == src_dir(),
    ensures
        r@ == joined_frames(ls@.map_values(|l: Vec<char>| l@)),
{
    let ghost all = ls@.map_values(|l: Vec<char>| l@);
    let mut r: Vec<char> = Vec::new();
    let mut i: usize = 0;
    while i < ls.len()
        invariant
            i <= ls.len(),
            all == ls@.map_values(|l: Vec<char>| l@),
            at@ == at_dot(),
            src@ == src_dir(),
            r@ == joined_frames(all.take(i as int)),
        decreases ls.len() - i,
    {
        let line = &ls[i];
        assert(all.take(i + 1).drop_last() =~= all.take(i as int));
        assert(all.take(i + 1).last() == line@);
        if has_sub_exec(line, at) && has_sub_exec(line, src) {
            let mut k: usize = 0;
            let ghost before = r@;
            while k < line.len()
                invariant
                    k <= line.len(),
                    r@ == before + line@.take(k as int),
                decreases line.len() - k,
            {
                r.push(line[k]);
                k = k + 1;
                assert(r@ =~= before + line@.take(k as int));
            }
            assert(line@.take(k as int) =~= line@);
        }
        i = i + 1;
        assert(r@ =~= joined_frames(all.take(i as int)));
    }
    assert(all.take(i as int) =~= all);
    r
}

/// `s` without the occurrences of `"at ./"`, as `without_at` says.
fn drop_at(s: &Vec<char>, at: &Vec<char>) -> (r: Vec<char>)
    requires
        at@ == at_dot(),
    ensures
        r@ == without_at(s@),
{
    let mut r: Vec<char> = Vec::new();
    let mut i: usize = 0;
    assert(s@.skip(0) =~= s@);
    assert(r@ + without_at(s@) =~= without_at(s@));
    while i < s.len()
        invariant
            i <= s.len(),
            at@ == at_dot(),
            r@ + without_at(s@.skip(i as int)) == without_at(s@),
        decreases s.len() - i,
    {
        let ghost rest = s@.skip(i as int);
        if s.len() - i >= 5 && occurs_exec(s, at, i) {
            assert(rest.subrange(0, 5) =~= s@.subrange(i as int, i + 5));
            assert(rest.skip(5) =~= s@.skip(i + 5));
            i = i + 5;
        } else {
            assert(!occurs_at(rest, at_dot(), 0)) by {
                if occurs_at(rest, at_dot(), 0) {
                    assert(rest.subrange(0, 5) =~= s@.subrange(i as int, i + 5));
                }
            }
            assert(rest.skip(1) =~= s@.skip(i + 1));
            assert(rest[0] == s@[i as int]);
            r.push(s[i]);
            i = i + 1;
            assert(r@ + without_at(s@.skip(i as int)) =~= without_at(s@));
        }
    }
    assert(s@.skip(i as int) =~= Seq::<char>::empty());
    assert(r@ + Seq::<char>::empty() =~= r@);
    r
}

/// Whether `c` is white space, as `is_ws` says.
fn is_ws_exec(c: char) -> (r: bool)
    ensures
        r == is_ws(c),
{
    let n = c as u32;
    (9 <= n && n <= 13) || n == 32 || n == 0x85 || n == 0xa0 || n == 0x1680 || (0x2000 <= n && n
        <= 0x200a) || n == 0x2028 || n == 0x2029 || n == 0x202f || n == 0x205f || n == 0x3000
}

/// The words of `s`, as `words_after` says.
fn words_of(s: &Vec<char>) -> (r: Vec<Vec<char>>)
    ensures
        r@.map_values(|w: Vec<char>| w@) == words_after(s@, Seq::empty()),
{
    let mut out: Vec<Vec<char>> = Vec::new();
    let mut cur: Vec<char> = Vec::new();
    let mut i: usize = 0;
    assert(s@.skip(0) =~= s@);
    assert(out@.map_values(|w: Vec<char>| w@) + words_after(s@, cur@) =~= words_after(s@, Seq::empty()));
    while i < s.len()
        invariant
            i <= s.len(),
            out@.map_values(|w: Vec<char>| w@) + words_after(s@.skip(i as int), cur@) == words_after(
                s@,
                Seq::empty(),
            ),
        decreases s.len() - i,
    {
        let ghost rest = s@.skip(i as int);
        let ghost before = out@.map_values(|w: Vec<char>| w@);
        let ghost cur0 = cur@;
        let c = s[i];
        assert(rest[0] == c);
        assert(rest.skip(1) =~= s@.skip(i + 1));
        if is_ws_exec(c) {
            if cur.len() > 0 {
                let mut word: Vec<char> = Vec::new();
                std::mem::swap(&mut word, &mut cur);
                out.push(word);
                proof {
                    assert(out@.map_values(|w: Vec<char>| w@) =~= before + seq![cur0]);
                    assert(cur@ =~= Seq::<char>::empty());
                    assert(words_after(rest, cur0) == seq![cur0] + words_after(rest.skip(1), Seq::empty()));
                    assert(before + seq![cur0] + words_after(rest.skip(1), Seq::empty()) =~= before + (seq![
                        cur0,
                    ] + words_after(rest.skip(1), Seq::empty())));
                }
            } else {
                assert(words_after(rest, cur0) == words_after(rest.skip(1), Seq::empty()));
                assert(cur0 =~= Seq::<char>::empty());
            }
        } else {
            cur.push(c);
            assert(words_after(rest, cur0) == words_after(rest.skip(1), cur0.push(c)));
        }
        i = i + 1;
    }
    assert(s@.skip(i as int) =~= Seq::<char>::empty());
    let ghost before = out@.map_values(|w: Vec<char>| w@);
    if cur.len() > 0 {
        out.push(cur);
        assert(out@.map_values(|w: Vec<char>| w@) =~= before + seq![cur@]);
    } else {
        assert(before + Seq::<Seq<char>>::empty() =~= before);
    }
    out
}

/// Whether `a` and `b` hold the same characters.
fn same_chars(a: &Vec<char>, b: &Vec<char>) -> (r: bool)
    ensures
        r == (a@ == b@),
{
    if a.len() != b.len() {
        return false;
    }
    let mut k: usize = 0;
    while k < a.len()
        invariant
            k <= a.len(),
            a.len() == b.len(),
            forall|q: int| 0 <= q < k ==> a@[q] == b@[q],
        decreases a.len() - k,
    {
        if a[k] != b[k] {
            return false;
        }
        k = k + 1;
    }
    assert(a@ =~= b@);
    true
}

/// A copy of `v`.
fn copy_chars(v: &Vec<char>) -> (r: Vec<char>)
    ensures
        r@ == v@,
{
    let mut r: Vec<char> = Vec::new();
    let mut k: usize = 0;
    while k < v.len()
        invariant
            k <= v.len(),
            r@ == v@.take(k as int),
        decreases v.len() - k,
    {
        r.push(v[k]);
        k = k + 1;
        assert(r@ =~= v@.take(k as int));
    }
    assert(v@.take(k as int) =~= v@);
    r
}

/// `String::push`: claimed to append `c` to the string, as its documentation says.
#[verifier::external_body]
fn push_char(s: &mut String, c: char)
    ensures
        final(s)@ == old(s)@.push(c),
{
    s.push(c);
}

/// The characters of `v` as a `String`.
fn string_of(v: &Vec<char>) -> (r: String)
    ensures
        r@ == v@,
{
    let mut r = String::new();
    let mut k: usize = 0;
    while k < v.len()
        invariant
            k <= v.len(),
            r@ == v@.take(k as int),
        decreases v.len() - k,
    {
        push_char(&mut r, v[k]);
        k = k + 1;
        assert(r@ =~= v@.take(k as int));
    }
    assert(v@.take(k as int) =~= v@);
    r
}

/// The callers on a backtrace's text `trace`, outermost first, as `callers_of` says.
pub fn callers_from_trace(trace: &str) -> (r: Vec<String>)
    ensures
        r@.map_values(|s: String| s@) == callers_of(trace@),
{
    let cs = chars_of(trace);
    let s = slash(&cs);
    let ls = lines_of(&s);
    let at: Vec<char> = vec!['a', 't', ' ', '.', '/'];
    let src: Vec<char> = vec!['/', 's', 'r', 'c', '/'];
    assert(at@ =~= at_dot());
    assert(src@ =~= src_dir());
    let joined = join_frames(&ls, &at, &src);
    let text = drop_at(&joined, &at);
    let w = words_of(&text);
    let ghost words = w@.map_values(|x: Vec<char>| x@);
    let ghost inner_out = if words.len() == 0 {
        words
    } else {
        words.skip(1)
    };
    let ghost rev = inner_out.reverse();
    let n = if w.len() == 0 { 0 } else { w.len() - 1 };
    assert(rev.len() == n);
    let mut dd: Vec<Vec<char>> = Vec::new();
    let mut m: usize = 0;
    while m < n
        invariant
            m <= n,
            n == rev.len(),
            n == 0 || n == w.len() - 1,
            words == w@.map_values(|x: Vec<char>| x@),
            rev == inner_out.reverse(),
            inner_out == (if words.len() == 0 { words } else { words.skip(1) }),
            dd@.map_values(|x: Vec<char>| x@) == dedup(rev.take(m as int)),
        decreases n - m,
    {
        let word = &w[w.len() - 1 - m];
        assert(rev[m as int] == word@);
        assert(rev.take(m + 1).drop_last() =~= rev.take(m as int));
        let ghost before = dd@.map_values(|x: Vec<char>| x@);
        let dup = dd.len() > 0 && same_chars(&dd[dd.len() - 1], word);
        if !dup {
            dd.push(copy_chars(word));
            assert(dd@.map_values(|x: Vec<char>| x@) =~= before.push(word@));
        }
        m = m + 1;
    }
    assert(rev.take(m as int) =~= rev);
    let mut r: Vec<String> = Vec::new();
    if dd.len() == 0 {
        r.push(String::new());
        assert(r@.map_values(|s: String| s@) =~= seq![Seq::<char>::empty()]);
    } else {
        let mut k: usize = 0;
        while k < dd.len()
            invariant
                k <= dd.len(),
                r@.map_values(|s: String| s@) == dd@.map_values(|x: Vec<char>| x@).take(k as int),
            decreases dd.len() - k,
        {
            let ghost before = r@.map_values(|s: String| s@);
            let one = string_of(&dd[k]);
            r.push(one);
            assert(r@.map_values(|s: String| s@) =~= before.push(one@));
            assert(dd@.map_values(|x: Vec<char>| x@).take(k + 1) =~= dd@.map_values(|x: Vec<char>| x@).take(
                k as int,
            ).push(dd@[k as int]@));
            k = k + 1;
            assert(r@.map_values(|s: String| s@) =~= dd@.map_values(|x: Vec<char>| x@).take(k as int));
        }
        assert(dd@.map_values(|x: Vec<char>| x@).take(k as int) =~= dd@.map_values(|x: Vec<char>| x@));
    }
    r
}

/// `parts` with `sep` between each two.
pub open spec fn joined_with(parts: Seq<Seq<char>>, sep: Seq<char>) -> Seq<char>
    decreases parts.len(),
{
    if parts.len() == 0 {
        Seq::empty()
    } else if parts.len() == 1 {
        parts[0]
    } else {
        joined_with(parts.drop_last(), sep) + sep + parts.last()
    }
}

/// How many of `n` callers a call path keeps when the innermost `skips + 1` are left out.
pub open spec fn path_len(n: nat, skips: nat) -> nat {
    if n > skips + 1 {
        (n - skips - 1) as nat
    } else {
        0
    }
}

/// The call path `a > b > c` of `callers`, the innermost `skips + 1` left out.
pub open spec fn call_path(callers: Seq<Seq<char>>, skips: nat) -> Seq<char> {
    joined_with(callers.take(path_len(callers.len(), skips) as int), " > "@)
}

/// The caller `skips + 2` levels in from the innermost one, or the outermost one where there are
/// not that many.
pub open spec fn caller_up(callers: Seq<Seq<char>>, skips: nat) -> Seq<char> {
    if callers.len() >= skips + 2 {
        callers[callers.len() - skips - 2]
    } else {
        callers[0]
    }
}

/// The call path of `callers`, as `call_path` says.
pub fn callers_path(callers: &Vec<String>, skips: usize) -> (r: String)
    requires
        skips < usize::MAX,
    ensures
        r@ == call_path(callers@.map_values(|s: String| s@), skips as nat),
{
    let ghost all = callers@.map_values(|s: String| s@);
    let keep = if callers.len() > skips + 1 { callers.len() - skips - 1 } else { 0 };
    let mut r = String::new();
    let mut k: usize = 0;
    while k < keep
        invariant
            k <= keep,
            keep <= callers.len(),
            all == callers@.map_values(|s: String| s@),
            r@ == joined_with(all.take(k as int), " > "@),
        decreases keep - k,
    {
        let ghost before = r@;
        if k > 0 {
            r.append(" > ");
        }
        r.append(callers[k].as_str());
        k = k + 1;
        proof {
            let t = all.take(k as int);
            assert(t.drop_last() =~= all.take(k - 1));
            assert(t.last() == callers@[k - 1]@);
            if k == 1 {
                assert(before =~= Seq::<char>::empty());
                assert(r@ =~= t[0]);
            } else {
                assert(r@ =~= before + " > "@ + t.last());
            }
        }
    }
    r
}

/// The caller `skips + 2` levels in, as `caller_up` says.
pub fn caller_at(callers: &Vec<String>, skips: usize) -> (r: String)
    requires
        callers.len() > 0,
        skips + 2 <= usize::MAX,
    ensures
        r@ == caller_up(callers@.map_values(|s: String| s@), skips as nat),
{
    let i = if callers.len() >= skips + 2 { callers.len() - skips - 2 } else { 0 };
    callers[i].clone()
}

} // verus!
