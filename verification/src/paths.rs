//! Output file naming.
//!
//! Paths are modelled as byte strings.  The name of an output chunk file is
//! derived from the source file's stem and extension plus a zero-padded
//! ordinal index, and joined to the output directory with a `/` separator.
//!
//! The stem and extension of a path are read from its final component, the
//! suffix after the last `/`: the component is split at its last `.`,
//! except that a leading `.` alone (a dot-file) does not begin an
//! extension.

use vstd::prelude::*;

verus! {

/// Byte value of `/`.
pub open spec fn slash() -> u8 {
    47u8
}

/// Byte value of `.`.
pub open spec fn dot() -> u8 {
    46u8
}

/// The final component of a path: the suffix after the last `/`
/// (the whole path when it holds no `/`).
pub open spec fn file_name(p: Seq<u8>) -> Seq<u8>
    decreases p.len(),
{
    if p.len() == 0 {
        p
    } else if p.last() == slash() {
        Seq::empty()
    } else {
        file_name(p.drop_last()).push(p.last())
    }
}

/// The index of the last `.` in a component, or `-1` when it has none.
pub open spec fn last_dot(n: Seq<u8>) -> int
    decreases n.len(),
{
    if n.len() == 0 {
        -1
    } else if n.last() == dot() {
        n.len() - 1
    } else {
        last_dot(n.drop_last())
    }
}

/// The stem of a path: its final component up to the last `.`, the whole
/// component when there is no `.` beyond a leading one, and nothing when
/// the component is empty.
pub open spec fn spec_stem(p: Seq<u8>) -> Option<Seq<u8>> {
    let n = file_name(p);
    if n.len() == 0 {
        None
    } else {
        let d = last_dot(n);
        if d <= 0 {
            Some(n)
        } else {
            Some(n.take(d))
        }
    }
}

/// The extension of a path: its final component after the last `.`, and
/// nothing when there is no `.` beyond a leading one.
pub open spec fn spec_extension(p: Seq<u8>) -> Option<Seq<u8>> {
    let n = file_name(p);
    if n.len() == 0 {
        None
    } else {
        let d = last_dot(n);
        if d <= 0 {
            None
        } else {
            Some(n.skip(d + 1))
        }
    }
}

/// The view of an optional byte string.
pub open spec fn opt_line_of(o: Option<Vec<u8>>) -> Option<Seq<u8>> {
    match o {
        Option::None => Option::None,
        Option::Some(v) => Option::Some(v@),
    }
}

proof fn lemma_file_name_suffix(p: Seq<u8>, k: int)
    requires
        0 <= k <= p.len(),
        forall|j: int| k <= j < p.len() ==> p[j] != slash(),
        k > 0 ==> p[k - 1] == slash(),
    ensures
        file_name(p) == p.skip(k),
    decreases p.len(),
{
    if p.len() == k {
        assert(p.skip(k) =~= Seq::<u8>::empty());
        if k > 0 {
            assert(p.last() == p[k - 1]);
        }
    } else {
        assert(p.last() != slash());
        lemma_file_name_suffix(p.drop_last(), k);
        assert(p.drop_last().skip(k).push(p.last()) =~= p.skip(k));
    }
}

proof fn lemma_last_dot_at(n: Seq<u8>, k: int)
    requires
        -1 <= k < n.len(),
        k >= 0 ==> n[k] == dot(),
        forall|j: int| k < j < n.len() ==> n[j] != dot(),
    ensures
        last_dot(n) == k,
    decreases n.len(),
{
    if n.len() == 0 {
    } else if n.last() == dot() {
        assert(k == n.len() - 1);
    } else {
        assert(k < n.len() - 1);
        lemma_last_dot_at(n.drop_last(), k);
    }
}

/// Copies the bytes of `p` from `a` (inclusive) to `b` (exclusive).
fn subvec(p: &Vec<u8>, a: usize, b: usize) -> (r: Vec<u8>)
    requires
        a <= b <= p@.len(),
    ensures
        r@ == p@.subrange(a as int, b as int),
{
    let mut r: Vec<u8> = Vec::new();
    let mut i: usize = a;
    while i < b
        invariant
            a <= i <= b <= p@.len(),
            r@ == p@.subrange(a as int, i as int),
        decreases b - i,
    {
        r.push(p[i]);
        proof {
            assert(r@ =~= p@.subrange(a as int, i + 1));
        }
        i = i + 1;
    }
    r
}

/// The stem and the extension of a path, in that order.
///
/// The stem is the final component up to its last `.`; the extension is
/// what follows that `.`.  A component without a `.`, or whose only `.`
/// leads it, is all stem.  An empty component has neither.
pub fn get_file_name_and_extension(file_path: &Vec<u8>) -> (r: (Option<Vec<u8>>, Option<Vec<u8>>))
    ensures
        opt_line_of(r.0) == spec_stem(file_path@),
        opt_line_of(r.1) == spec_extension(file_path@),
{
    let p = file_path;
    let len = p.len();
    let mut start: usize = len;
    while start > 0 && p[start - 1] != 47u8
        invariant
            start <= p@.len(),
            forall|j: int| start <= j < p@.len() ==> p@[j] != slash(),
        decreases start,
    {
        start = start - 1;
    }
    proof {
        lemma_file_name_suffix(p@, start as int);
    }
    let ghost name = file_name(p@);
    proof {
        assert(name =~= p@.subrange(start as int, p@.len() as int));
    }
    if start == len {
        return (None, None);
    }
    let mut j: usize = len;
    while j > start && p[j - 1] != 46u8
        invariant
            start <= j <= p@.len(),
            forall|i: int| j <= i < p@.len() ==> p@[i] != dot(),
        decreases j,
    {
        j = j - 1;
    }
    proof {
        lemma_last_dot_at(name, j - start - 1);
    }
    if j <= start + 1 {
        let stem = subvec(p, start, len);
        (Some(stem), None)
    } else {
        let stem = subvec(p, start, j - 1);
        let ext = subvec(p, j, len);
        proof {
            assert(stem@ =~= name.take(j - start - 1));
            assert(ext@ =~= name.skip(j - start));
        }
        (Some(stem), Some(ext))
    }
}

/// The decimal digits of `n`, most significant first.
pub open spec fn dec_digits(n: nat) -> Seq<u8>
    decreases n,
{
    if n < 10 {
        seq![(48 + n) as u8]
    } else {
        dec_digits(n / 10).push((48 + n % 10) as u8)
    }
}

/// `s` left-padded with `0` digits to at least nine bytes.
pub open spec fn zero_pad9(s: Seq<u8>) -> Seq<u8> {
    if s.len() >= 9 {
        s
    } else {
        Seq::new((9 - s.len()) as nat, |i: int| 48u8) + s
    }
}

/// The name segment of an ordinal: its decimal digits, zero-padded to
/// nine.
pub open spec fn spec_index_name(n: nat) -> Seq<u8> {
    zero_pad9(dec_digits(n))
}

fn push_digits(n: u32, out: &mut Vec<u8>)
    ensures
        final(out)@ == old(out)@ + dec_digits(n as nat),
    decreases n,
{
    if n < 10 {
        out.push(48 + n as u8);
        proof {
            assert(out@ =~= old(out)@ + dec_digits(n as nat));
        }
    } else {
        push_digits(n / 10, out);
        out.push(48 + (n % 10) as u8);
        proof {
            assert(out@ =~= old(out)@ + dec_digits(n as nat));
        }
    }
}

/// The zero-padded decimal name segment of `n`.
fn format_index(n: u32) -> (r: Vec<u8>)
    ensures
        r@ == spec_index_name(n as nat),
{
    let mut digs: Vec<u8> = Vec::new();
    push_digits(n, &mut digs);
    proof {
        assert(digs@ =~= dec_digits(n as nat));
    }
    let mut r: Vec<u8> = Vec::new();
    while r.len() + digs.len() < 9
        invariant
            digs@ == dec_digits(n as nat),
            forall|j: int| 0 <= j < r@.len() ==> r@[j] == 48u8,
            r@.len() + digs@.len() <= 9 || r@.len() == 0,
        decreases 9 - r.len() - digs.len(),
    {
        r.push(48u8);
    }
    r.append(&mut digs);
    proof {
        assert(r@ =~= spec_index_name(n as nat));
    }
    r
}

/// The name of one chunk file: the source stem and an underscore where the
/// source has a stem, the zero-padded ordinal, and a dot and the source
/// extension where the source has one.
pub open spec fn chunk_file_name(file: Seq<u8>, idx: nat) -> Seq<u8> {
    let stem_part = match spec_stem(file) {
        Option::Some(s) => s + seq![95u8],
        Option::None => Seq::<u8>::empty(),
    };
    let ext_part = match spec_extension(file) {
        Option::Some(e) => seq![dot()] + e,
        Option::None => Seq::<u8>::empty(),
    };
    stem_part + spec_index_name(idx) + ext_part
}

/// A chunk file name joined to the output directory with `/`, with no
/// separator doubled or added to an empty directory.
pub open spec fn spec_composed(dir: Seq<u8>, file: Seq<u8>, idx: nat) -> Seq<u8> {
    let name = chunk_file_name(file, idx);
    if dir.len() == 0 {
        name
    } else if dir.last() == slash() {
        dir + name
    } else {
        dir + seq![slash()] + name
    }
}

fn append_bytes(dst: &mut Vec<u8>, src: &Vec<u8>)
    ensures
        final(dst)@ == old(dst)@ + src@,
{
    let mut i: usize = 0;
    while i < src.len()
        invariant
            i <= src@.len(),
            dst@ == old(dst)@ + src@.take(i as int),
        decreases src@.len() - i,
    {
        dst.push(src[i]);
        proof {
            assert(dst@ =~= old(dst)@ + src@.take(i + 1));
        }
        i = i + 1;
    }
    proof {
        assert(old(dst)@ + src@.take(src@.len() as int) =~= old(dst)@ + src@);
    }
}

/// The path of the output chunk file with ordinal `file_index`: the output
/// directory, a `/` separator, the source file's stem, an underscore, the
/// nine-digit zero-padded ordinal, and the source file's extension.
pub fn compose_file_path(directory: &Vec<u8>, file: &Vec<u8>, file_index: u32) -> (r: Vec<u8>)
    ensures
        r@ == spec_composed(directory@, file@, file_index as nat),
{
    let mut r: Vec<u8> = Vec::new();
    append_bytes(&mut r, directory);
    if directory.len() > 0 && directory[directory.len() - 1] != 47u8 {
        r.push(47u8);
    }
    let (stem, ext) = get_file_name_and_extension(file);
    match stem {
        Some(s) => {
            append_bytes(&mut r, &s);
            r.push(95u8);
        },
        None => {},
    }
    let mut idx_name = format_index(file_index);
    r.append(&mut idx_name);
    match ext {
        Some(e) => {
            r.push(46u8);
            append_bytes(&mut r, &e);
        },
        None => {},
    }
    proof {
        assert(r@ =~= spec_composed(directory@, file@, file_index as nat));
    }
    r
}

} // verus!
