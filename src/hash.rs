use vstd::prelude::*;

use crate::text::chars_of;

verus! {

pub const FNV_OFFSET: u64 = 14695981039346656037;

pub const FNV_PRIME: u64 = 1099511628211;

/// One step of the 64-bit FNV-1a hash, over a character's code point.
pub open spec fn fnv_step(h: u64, c: char) -> u64 {
    vstd::wrapping::u64_specs::wrapping_mul(h ^ (c as u32 as u64), FNV_PRIME)
}

pub open spec fn fnv_from(h: u64, cs: Seq<char>) -> u64
    decreases cs.len(),
{
    if cs.len() == 0 {
        h
    } else {
        fnv_step(fnv_from(h, cs.drop_last()), cs.last())
    }
}

/// What the hash of a configuration directory covers: each script's file
/// name and contents, in evaluation order, each followed by a NUL.
pub open spec fn hashed_text(files: Seq<(Seq<char>, Seq<char>)>) -> Seq<char>
    decreases files.len(),
{
    if files.len() == 0 {
        seq![]
    } else {
        hashed_text(files.drop_last()) + files.last().0 + seq!['\0'] + files.last().1 + seq!['\0']
    }
}

pub open spec fn files_view(v: Seq<(String, String)>) -> Seq<(Seq<char>, Seq<char>)> {
    v.map_values(|f: (String, String)| (f.0@, f.1@))
}

fn fnv_chars(h0: u64, cs: &Vec<char>) -> (r: u64)
    ensures
        r == fnv_from(h0, cs@),
{
    let mut h = h0;
    let mut i: usize = 0;
    while i < cs.len()
        invariant
            i <= cs@.len(),
            h == fnv_from(h0, cs@.take(i as int)),
        decreases cs@.len() - i,
    {
        assert(cs@.take(i + 1).drop_last() =~= cs@.take(i as int));
        h = (h ^ (cs[i] as u32 as u64)).wrapping_mul(FNV_PRIME);
        i += 1;
    }
    assert(cs@.take(cs@.len() as int) =~= cs@);
    h
}

proof fn lemma_fnv_concat(h: u64, a: Seq<char>, b: Seq<char>)
    ensures
        fnv_from(h, a + b) == fnv_from(fnv_from(h, a), b),
    decreases b.len(),
{
    if b.len() == 0 {
        assert(a + b =~= a);
    } else {
        assert((a + b).drop_last() =~= a + b.drop_last());
        assert((a + b).last() == b.last());
        lemma_fnv_concat(h, a, b.drop_last());
    }
}

/// The content hash of a configuration directory's scripts, given as
/// (file name, contents) in evaluation order: renaming, reordering or editing
/// a script changes what is hashed.
pub fn content_hash(files: &Vec<(String, String)>) -> (r: u64)
    ensures
        r == fnv_from(FNV_OFFSET, hashed_text(files_view(files@))),
{
    let ghost fv = files_view(files@);
    let mut h: u64 = FNV_OFFSET;
    let mut i: usize = 0;
    let mut nul: Vec<char> = Vec::new();
    nul.push('\0');
    assert(fv.take(0) =~= Seq::<(Seq<char>, Seq<char>)>::empty());
    while i < files.len()
        invariant
            i <= files@.len(),
            fv == files_view(files@),
            nul@ == seq!['\0'],
            h == fnv_from(FNV_OFFSET, hashed_text(fv.take(i as int))),
        decreases files@.len() - i,
    {
        let ghost pre = hashed_text(fv.take(i as int));
        let name = chars_of(files[i].0.as_str());
        let body = chars_of(files[i].1.as_str());
        let h1 = fnv_chars(h, &name);
        let h2 = fnv_chars(h1, &nul);
        let h3 = fnv_chars(h2, &body);
        let h4 = fnv_chars(h3, &nul);
        proof {
            assert(fv.take(i + 1).drop_last() =~= fv.take(i as int));
            assert(fv.take(i + 1).last() == (name@, body@));
            lemma_fnv_concat(FNV_OFFSET, pre, name@);
            lemma_fnv_concat(FNV_OFFSET, pre + name@, seq!['\0']);
            lemma_fnv_concat(FNV_OFFSET, pre + name@ + seq!['\0'], body@);
            lemma_fnv_concat(FNV_OFFSET, pre + name@ + seq!['\0'] + body@, seq!['\0']);
        }
        h = h4;
        i += 1;
    }
    assert(fv.take(fv.len() as int) =~= fv);
    h
}

pub open spec fn hex_digit(d: nat) -> char {
    if d < 10 {
        ((d + 48) as u8) as char
    } else {
        ((d + 87) as u8) as char
    }
}

/// The lowest `k` hexadecimal digits of `n`, most significant first.
pub open spec fn hex_of(n: nat, k: nat) -> Seq<char>
    decreases k,
{
    if k == 0 {
        seq![]
    } else {
        hex_of(n / 16, (k - 1) as nat).push(hex_digit(n % 16))
    }
}

fn hex_exec(n: u64, k: u64) -> (r: Vec<char>)
    ensures
        r@ == hex_of(n as nat, k as nat),
    decreases k,
{
    if k == 0 {
        Vec::new()
    } else {
        let mut v = hex_exec(n / 16, k - 1);
        let d = n % 16;
        let c: char = if d < 10 {
            ((d as u8) + 48) as char
        } else {
            ((d as u8) + 87) as char
        };
        v.push(c);
        v
    }
}

/// The content hash of a directory's scripts, as sixteen hexadecimal digits.
pub fn hash_text(files: &Vec<(String, String)>) -> (r: String)
    ensures
        r@ == hex_of(fnv_from(FNV_OFFSET, hashed_text(files_view(files@))) as nat, 16),
{
    let h = content_hash(files);
    crate::text::string_of(&hex_exec(h, 16))
}

} // verus!
