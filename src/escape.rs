use vstd::prelude::*;

verus! {

// Tokens are written one after the other, each followed by `;`. Inside a
// token, `\`, `;` and line breaks are written as `\\`, `\;` and `\n`.
pub open spec fn esc_char(c: char) -> Seq<char> {
    if c == '\\' {
        seq!['\\', '\\']
    } else if c == ';' {
        seq!['\\', ';']
    } else if c == '\n' {
        seq!['\\', 'n']
    } else {
        seq![c]
    }
}

pub open spec fn unesc(c: char) -> Option<char> {
    if c == '\\' {
        Some('\\')
    } else if c == ';' {
        Some(';')
    } else if c == 'n' {
        Some('\n')
    } else {
        None
    }
}

pub open spec fn esc(t: Seq<char>) -> Seq<char>
    decreases t.len(),
{
    if t.len() == 0 {
        seq![]
    } else {
        esc(t.drop_last()) + esc_char(t.last())
    }
}

/// The text of a sequence of tokens.
pub open spec fn join(toks: Seq<Seq<char>>) -> Seq<char>
    decreases toks.len(),
{
    if toks.len() == 0 {
        seq![]
    } else {
        join(toks.drop_last()) + esc(toks.last()) + seq![';']
    }
}

/// Where a scan of the text stands: the tokens read, the token being read,
/// whether a `\` was just read, whether the text was found malformed.
pub struct Scan {
    pub toks: Seq<Seq<char>>,
    pub cur: Seq<char>,
    pub escaped: bool,
    pub bad: bool,
}

pub open spec fn feed(s: Scan, c: char) -> Scan {
    if s.bad {
        s
    } else if s.escaped {
        match unesc(c) {
            Some(d) => Scan { toks: s.toks, cur: s.cur.push(d), escaped: false, bad: false },
            None => Scan { bad: true, ..s },
        }
    } else if c == '\\' {
        Scan { escaped: true, ..s }
    } else if c == ';' {
        Scan { toks: s.toks.push(s.cur), cur: seq![], escaped: false, bad: false }
    } else {
        Scan { cur: s.cur.push(c), ..s }
    }
}

pub open spec fn scan_from(s: Scan, cs: Seq<char>) -> Scan
    decreases cs.len(),
{
    if cs.len() == 0 {
        s
    } else {
        feed(scan_from(s, cs.drop_last()), cs.last())
    }
}

pub open spec fn scan_start() -> Scan {
    Scan { toks: seq![], cur: seq![], escaped: false, bad: false }
}

/// The tokens that a text holds, if it is well formed.
pub open spec fn split(cs: Seq<char>) -> Option<Seq<Seq<char>>> {
    let s = scan_from(scan_start(), cs);
    if !s.bad && !s.escaped && s.cur.len() == 0 {
        Some(s.toks)
    } else {
        None
    }
}

proof fn lemma_scan_bad(s: Scan, cs: Seq<char>)
    requires
        s.bad,
    ensures
        scan_from(s, cs).bad,
    decreases cs.len(),
{
    if cs.len() > 0 {
        lemma_scan_bad(s, cs.drop_last());
    }
}

proof fn lemma_scan_concat(s: Scan, a: Seq<char>, b: Seq<char>)
    ensures
        scan_from(s, a + b) == scan_from(scan_from(s, a), b),
    decreases b.len(),
{
    if b.len() == 0 {
        assert(a + b =~= a);
    } else {
        assert((a + b).drop_last() =~= a + b.drop_last());
        assert((a + b).last() == b.last());
        lemma_scan_concat(s, a, b.drop_last());
    }
}

proof fn lemma_scan_esc(toks: Seq<Seq<char>>, cur: Seq<char>, t: Seq<char>)
    ensures
        scan_from((Scan { toks, cur, escaped: false, bad: false }), esc(t)) == (Scan {
            toks,
            cur: cur + t,
            escaped: false,
            bad: false,
        }),
    decreases t.len(),
{
    let s0 = Scan { toks, cur, escaped: false, bad: false };
    if t.len() == 0 {
        assert(cur + t =~= cur);
    } else {
        let c = t.last();
        lemma_scan_esc(toks, cur, t.drop_last());
        lemma_scan_concat(s0, esc(t.drop_last()), esc_char(c));
        let mid = Scan { toks, cur: cur + t.drop_last(), escaped: false, bad: false };
        assert(cur + t =~= (cur + t.drop_last()).push(c));
        assert(scan_from(mid, Seq::<char>::empty()) == mid);
        if c == '\\' || c == ';' || c == '\n' {
            let e = esc_char(c);
            assert(e.drop_last() =~= seq!['\\']);
            assert(seq!['\\'].drop_last() =~= Seq::<char>::empty());
            assert(scan_from(mid, seq!['\\']) == feed(mid, '\\'));
            assert(scan_from(mid, e) == feed(feed(mid, '\\'), e[1]));
        } else {
            assert(esc_char(c).drop_last() =~= Seq::<char>::empty());
        }
    }
}

/// A text written from tokens gives back those tokens.
pub proof fn lemma_split_join(toks: Seq<Seq<char>>)
    ensures
        scan_from(scan_start(), join(toks)) == (Scan {
            toks,
            cur: seq![],
            escaped: false,
            bad: false,
        }),
        split(join(toks)) == Some(toks),
    decreases toks.len(),
{
    if toks.len() == 0 {
        assert(toks =~= Seq::<Seq<char>>::empty());
    } else {
        let pre = toks.drop_last();
        lemma_split_join(pre);
        lemma_scan_concat(scan_start(), join(pre), esc(toks.last()));
        lemma_scan_esc(pre, seq![], toks.last());
        lemma_scan_concat(scan_start(), join(pre) + esc(toks.last()), seq![';']);
        assert(seq![';'].drop_last() =~= Seq::<char>::empty());
        let s1 = Scan { toks: pre, cur: toks.last(), escaped: false, bad: false };
        assert(scan_from(s1, Seq::<char>::empty()) == s1);
        assert(join(toks) == join(pre) + esc(toks.last()) + seq![';']);
        let s0 = Scan { toks: pre, cur: seq![], escaped: false, bad: false };
        assert(scan_from(scan_start(), join(pre) + esc(toks.last())) == scan_from(s0, esc(toks.last())));
        assert(scan_from(s0, esc(toks.last())) == s1);
        assert(scan_from(s1, seq![';']) == feed(s1, ';'));
        assert(Seq::<char>::empty() + toks.last() =~= toks.last());
        assert(pre.push(toks.last()) =~= toks);
    }
}

fn push_escaped(out: &mut Vec<char>, c: char)
    ensures
        final(out)@ == old(out)@ + esc_char(c),
{
    if c == '\\' {
        out.push('\\');
        out.push('\\');
    } else if c == ';' {
        out.push('\\');
        out.push(';');
    } else if c == '\n' {
        out.push('\\');
        out.push('n');
    } else {
        out.push(c);
    }
    assert(out@ =~= old(out)@ + esc_char(c));
}

pub open spec fn tokens_view(v: Seq<Vec<char>>) -> Seq<Seq<char>> {
    v.map_values(|t: Vec<char>| t@)
}

/// The text of a sequence of tokens.
pub fn join_tokens(toks: &Vec<Vec<char>>) -> (r: Vec<char>)
    ensures
        r@ == join(tokens_view(toks@)),
{
    let ghost tv = tokens_view(toks@);
    let mut out: Vec<char> = Vec::new();
    let mut i: usize = 0;
    while i < toks.len()
        invariant
            i <= toks@.len(),
            tv == tokens_view(toks@),
            out@ == join(tv.take(i as int)),
        decreases toks@.len() - i,
    {
        let t = &toks[i];
        let ghost start = out@;
        let mut j: usize = 0;
        while j < t.len()
            invariant
                j <= t@.len(),
                out@ == start + esc(t@.take(j as int)),
            decreases t@.len() - j,
        {
            push_escaped(&mut out, t[j]);
            assert(t@.take(j + 1).drop_last() =~= t@.take(j as int));
            j += 1;
        }
        out.push(';');
        assert(t@.take(t@.len() as int) =~= t@);
        assert(tv.take(i + 1).drop_last() =~= tv.take(i as int));
        assert(out@ =~= join(tv.take(i + 1)));
        i += 1;
    }
    assert(tv.take(tv.len() as int) =~= tv);
    out
}

/// The tokens that a text holds, or `None` where it is malformed.
pub fn split_tokens(cs: &Vec<char>) -> (r: Option<Vec<Vec<char>>>)
    ensures
        match r {
            Some(v) => split(cs@) == Some(tokens_view(v@)),
            None => split(cs@) == None::<Seq<Seq<char>>>,
        },
{
    let mut toks: Vec<Vec<char>> = Vec::new();
    let mut cur: Vec<char> = Vec::new();
    let mut escaped = false;
    let mut i: usize = 0;
    assert(cs@.take(0) =~= Seq::<char>::empty());
    assert(tokens_view(toks@) =~= Seq::<Seq<char>>::empty());
    assert(cur@ =~= Seq::<char>::empty());
    while i < cs.len()
        invariant
            i <= cs@.len(),
            scan_from(scan_start(), cs@.take(i as int)) == (Scan {
                toks: tokens_view(toks@),
                cur: cur@,
                escaped,
                bad: false,
            }),
        decreases cs@.len() - i,
    {
        let c = cs[i];
        assert(cs@.take(i + 1).drop_last() =~= cs@.take(i as int));
        if escaped {
            let d = if c == '\\' {
                '\\'
            } else if c == ';' {
                ';'
            } else if c == 'n' {
                '\n'
            } else {
                proof {
                    let s1 = scan_from(scan_start(), cs@.take(i + 1));
                    assert(s1.bad);
                    lemma_scan_bad(s1, cs@.skip(i + 1));
                    lemma_scan_concat(scan_start(), cs@.take(i + 1), cs@.skip(i + 1));
                    assert(cs@.take(i + 1) + cs@.skip(i + 1) =~= cs@);
                }
                return None;
            };
            cur.push(d);
            escaped = false;
        } else if c == '\\' {
            escaped = true;
        } else if c == ';' {
            let ghost before = toks@;
            toks.push(cur);
            assert(tokens_view(toks@) =~= tokens_view(before).push(toks@.last()@));
            cur = Vec::new();
            assert(cur@ =~= Seq::<char>::empty());
        } else {
            cur.push(c);
        }
        i += 1;
    }
    assert(cs@.take(cs@.len() as int) =~= cs@);
    if escaped || cur.len() > 0 {
        None
    } else {
        Some(toks)
    }
}

} // verus!
