use vstd::prelude::*;

verus! {

/// The eight big-endian bytes of a word.
pub open spec fn be8(v: u64) -> Seq<u8> {
    seq![
        (v >> 56u64) as u8,
        (v >> 48u64) as u8,
        (v >> 40u64) as u8,
        (v >> 32u64) as u8,
        (v >> 24u64) as u8,
        (v >> 16u64) as u8,
        (v >> 8u64) as u8,
        v as u8,
    ]
}

/// The word of eight big-endian bytes.
pub open spec fn word_of(b0: u8, b1: u8, b2: u8, b3: u8, b4: u8, b5: u8, b6: u8, b7: u8) -> u64 {
    ((b0 as u64) << 56u64) | ((b1 as u64) << 48u64) | ((b2 as u64) << 40u64) | ((b3 as u64)
        << 32u64) | ((b4 as u64) << 24u64) | ((b5 as u64) << 16u64) | ((b6 as u64) << 8u64) | (
    b7 as u64)
}

/// The word written big-endian in `b` from position `i`.
pub open spec fn be_word(b: Seq<u8>, i: int) -> u64 {
    word_of(b[i], b[i + 1], b[i + 2], b[i + 3], b[i + 4], b[i + 5], b[i + 6], b[i + 7])
}

/// Reading the bytes of a word gives the word back.
pub proof fn lemma_be8_word(v: u64)
    ensures
        be8(v).len() == 8,
        be_word(be8(v), 0) == v,
{
    let b = be8(v);
    assert(word_of(
        (v >> 56u64) as u8,
        (v >> 48u64) as u8,
        (v >> 40u64) as u8,
        (v >> 32u64) as u8,
        (v >> 24u64) as u8,
        (v >> 16u64) as u8,
        (v >> 8u64) as u8,
        v as u8,
    ) == v) by (bit_vector);
}

/// A word written between other bytes is read back where it stands.
pub proof fn lemma_be8_between(a: Seq<u8>, v: u64, c: Seq<u8>)
    ensures
        be_word(a + be8(v) + c, a.len() as int) == v,
{
    lemma_be8_word(v);
    let s = a + be8(v) + c;
    let n = a.len() as int;
    assert forall|k: int| 0 <= k < 8 implies s[n + k] == be8(v)[k] by {}
    assert(s[n] == be8(v)[0]);
    assert(s[n + 1] == be8(v)[1]);
    assert(s[n + 2] == be8(v)[2]);
    assert(s[n + 3] == be8(v)[3]);
    assert(s[n + 4] == be8(v)[4]);
    assert(s[n + 5] == be8(v)[5]);
    assert(s[n + 6] == be8(v)[6]);
    assert(s[n + 7] == be8(v)[7]);
}

/// Appends the eight big-endian bytes of a word.
pub fn push_word(out: &mut Vec<u8>, v: u64)
    ensures
        final(out)@ == old(out)@ + be8(v),
{
    out.push((v >> 56u64) as u8);
    out.push((v >> 48u64) as u8);
    out.push((v >> 40u64) as u8);
    out.push((v >> 32u64) as u8);
    out.push((v >> 24u64) as u8);
    out.push((v >> 16u64) as u8);
    out.push((v >> 8u64) as u8);
    out.push(v as u8);
    assert(out@ =~= old(out)@ + be8(v));
}

/// The word written big-endian in `b` from position `i`.
pub fn read_word(b: &[u8], i: usize) -> (v: u64)
    requires
        i + 8 <= b.len(),
    ensures
        v == be_word(b@, i as int),
{
    ((b[i] as u64) << 56u64) | ((b[i + 1] as u64) << 48u64) | ((b[i + 2] as u64) << 40u64) | ((b[i
        + 3] as u64) << 32u64) | ((b[i + 4] as u64) << 24u64) | ((b[i + 5] as u64) << 16u64) | ((b[i
        + 6] as u64) << 8u64) | (b[i + 7] as u64)
}

/// `f` with `bs` written at `pos`; where `pos` lies past the end, the gap reads as zeros.
pub open spec fn patched(f: Seq<u8>, pos: int, bs: Seq<u8>) -> Seq<u8> {
    let n = if f.len() >= pos + bs.len() {
        f.len() as int
    } else {
        pos + bs.len()
    };
    Seq::new(
        n as nat,
        |i: int|
            if pos <= i < pos + bs.len() {
                bs[i - pos]
            } else if i < f.len() {
                f[i]
            } else {
                0u8
            },
    )
}

/// Writes `bs` into `file` at `pos`, as a write at that position of a file does.
pub fn write_at(file: &mut Vec<u8>, pos: usize, bs: &[u8])
    requires
        pos + bs.len() <= usize::MAX,
    ensures
        final(file)@ == patched(old(file)@, pos as int, bs@),
{
    let end = pos + bs.len();
    while file.len() < end
        invariant
            end == pos + bs.len(),
            old(file).len() <= file.len() <= end || (file.len() == old(file).len()),
            forall|i: int| 0 <= i < file.len() ==> #[trigger] file@[i] == (if i < old(file).len() {
                old(file)@[i]
            } else {
                0u8
            }),
        decreases end - file.len(),
    {
        file.push(0u8);
    }
    let ghost grown = file@;
    let mut k: usize = 0;
    while k < bs.len()
        invariant
            end == pos + bs.len(),
            k <= bs.len(),
            file.len() == grown.len(),
            grown.len() >= end,
            forall|i: int|
                0 <= i < file.len() ==> #[trigger] file@[i] == (if pos <= i < pos + k {
                    bs@[i - pos]
                } else {
                    grown[i]
                }),
        decreases bs.len() - k,
    {
        file.set(pos + k, bs[k]);
        k += 1;
    }
    assert(file@ =~= patched(old(file)@, pos as int, bs@));
}

} // verus!
