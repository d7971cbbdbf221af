//! The index codec.  An index blob describes one image: a header with
//! the block size, then an ordered list of file entries, each with a
//! relative path, a byte size, and one content hash per block.  The image
//! identifier is the digest of the serialized blob.  Serialization and
//! parsing are exact inverses.

use vstd::prelude::*;
use crate::types::{Hash256, DIGEST_LEN};

verus! {

/// One file of an image: its relative path (bytes), its length in bytes,
/// and the content hash of each of its blocks, in order.  The final block
/// may be shorter than the block size and is hashed as-is.
pub struct FileEntry {
    pub path: Vec<u8>,
    pub size: u64,
    pub hashes: Vec<Hash256>,
}

/// The ghost shape of a file entry.
pub struct FileView {
    pub path: Seq<u8>,
    pub size: u64,
    pub hashes: Seq<Seq<u8>>,
}

impl View for FileEntry {
    type V = FileView;

    open spec fn view(&self) -> FileView {
        FileView {
            path: self.path@,
            size: self.size,
            hashes: self.hashes@.map_values(|h: Hash256| h@),
        }
    }
}

/// A parsed index: the image's block size and its files, in order.
pub struct IndexData {
    pub block_size: u64,
    pub files: Vec<FileEntry>,
}

/// The ghost shape of an index.
pub struct IndexView {
    pub block_size: u64,
    pub files: Seq<FileView>,
}

impl View for IndexData {
    type V = IndexView;

    open spec fn view(&self) -> IndexView {
        IndexView { block_size: self.block_size, files: self.files@.map_values(|f: FileEntry| f@) }
    }
}

/// Number of blocks a file of `size` bytes has under block size `bs`:
/// `size / bs`, plus one for a final short block.
pub open spec fn blocks_of(size: u64, bs: u64) -> int {
    size as int / bs as int + (if size as int % bs as int != 0 {
        1int
    } else {
        0int
    })
}

/// A well-formed file view under block size `bs`.
pub open spec fn file_view_wf(f: FileView, bs: u64) -> bool {
    &&& f.hashes.len() == blocks_of(f.size, bs)
    &&& forall|i: int| 0 <= i < f.hashes.len() ==> (#[trigger] f.hashes[i]).len() == DIGEST_LEN
}

/// A well-formed index view: a nonzero block size and consistent entries.
pub open spec fn index_view_wf(x: IndexView) -> bool {
    &&& x.block_size >= 1
    &&& forall|i: int| 0 <= i < x.files.len() ==> file_view_wf(#[trigger] x.files[i], x.block_size)
}

impl IndexData {
    /// The executable index is well formed when its view is.
    pub open spec fn wf(&self) -> bool {
        index_view_wf(self@)
    }
}

// ---- little-endian integers ----

/// `v` (non-negative) encoded as `n` little-endian bytes.
pub open spec fn enc_le(v: int, n: nat) -> Seq<u8>
    decreases n,
{
    if n == 0 {
        Seq::<u8>::empty()
    } else {
        seq![(v % 256) as u8] + enc_le(v / 256, (n - 1) as nat)
    }
}

/// The integer read from little-endian bytes.
pub open spec fn le_int(s: Seq<u8>) -> int
    decreases s.len(),
{
    if s.len() == 0 {
        0
    } else {
        s.first() + 256 * le_int(s.drop_first())
    }
}

/// 256 to the `n`.
pub open spec fn pow256(n: nat) -> int
    decreases n,
{
    if n == 0 {
        1
    } else {
        256 * pow256((n - 1) as nat)
    }
}

pub proof fn lemma_enc_le_len(v: int, n: nat)
    ensures
        enc_le(v, n).len() == n,
    decreases n,
{
    if n > 0 {
        lemma_enc_le_len(v / 256, (n - 1) as nat);
    }
}

pub proof fn lemma_le_roundtrip(v: int, n: nat)
    requires
        0 <= v < pow256(n),
    ensures
        le_int(enc_le(v, n)) == v,
    decreases n,
{
    if n > 0 {
        lemma_enc_le_len(v / 256, (n - 1) as nat);
        assert(0 <= v / 256 < pow256((n - 1) as nat)) by {
            assert(v < 256 * pow256((n - 1) as nat));
        }
        lemma_le_roundtrip(v / 256, (n - 1) as nat);
        let e = enc_le(v, n);
        assert(e.first() == (v % 256) as u8);
        assert(e.drop_first() =~= enc_le(v / 256, (n - 1) as nat));
        assert(v % 256 + 256 * (v / 256) == v);
    }
}

pub proof fn lemma_le_int_bound(s: Seq<u8>)
    ensures
        0 <= le_int(s) < pow256(s.len() as nat),
    decreases s.len(),
{
    if s.len() > 0 {
        lemma_le_int_bound(s.drop_first());
    }
}

pub proof fn lemma_pow256_64()
    ensures
        pow256(8) == 0x1_0000_0000_0000_0000,
{
    reveal_with_fuel(pow256, 9);
}

/// Append `v` as eight little-endian bytes.
pub fn write_u64(out: &mut Vec<u8>, v: u64)
    ensures
        final(out)@ == old(out)@ + enc_le(v as int, 8),
{
    let ghost out0 = out@;
    let mut x: u64 = v;
    let mut i: usize = 0;
    proof {
        assert(out@ + Seq::<u8>::empty() =~= out@);
    }
    while i < 8
        invariant
            i <= 8,
            out@.len() == out0.len() + i,
            out@ + enc_le(x as int, (8 - i) as nat) == out0 + enc_le(v as int, 8),
        decreases 8 - i,
    {
        let ghost pre = out@;
        let ghost x0 = x;
        let b = (x % 256) as u8;
        out.push(b);
        x = x / 256;
        proof {
            assert(enc_le(x0 as int, (8 - i) as nat) == seq![b] + enc_le(
                x as int,
                (8 - i - 1) as nat,
            ));
            assert(pre + (seq![b] + enc_le(x as int, (8 - i - 1) as nat)) =~= (pre.push(b))
                + enc_le(x as int, (8 - i - 1) as nat));
        }
        i = i + 1;
    }
    proof {
        assert(enc_le(x as int, 0) =~= Seq::<u8>::empty());
        assert(out@ + Seq::<u8>::empty() =~= out@);
    }
}

/// Read eight little-endian bytes at `pos`.
pub fn read_u64(bytes: &Vec<u8>, pos: usize) -> (r: u64)
    requires
        pos + 8 <= bytes@.len(),
    ensures
        r as int == le_int(bytes@.subrange(pos as int, pos as int + 8)),
{
    let ghost s = bytes@.subrange(pos as int, pos as int + 8);
    let n = bytes.len();
    let mut x: u64 = 0;
    let mut i: usize = 8;
    proof {
        assert(s.skip(8) =~= Seq::<u8>::empty());
    }
    while i > 0
        invariant
            i <= 8,
            pos + 8 <= n,
            n == bytes@.len(),
            s == bytes@.subrange(pos as int, pos as int + 8),
            x as int == le_int(s.skip(i as int)),
        decreases i,
    {
        proof {
            lemma_le_int_bound(s.skip(i as int));
            lemma_pow256_mono((8 - i) as nat, 7);
            lemma_pow256_64();
        }
        let b = bytes[pos + i - 1];
        proof {
            assert(s.skip(i as int - 1).first() == s[i as int - 1]);
            assert(s[i as int - 1] == bytes@[pos + i - 1]);
            assert(s.skip(i as int - 1).drop_first() =~= s.skip(i as int));
        }
        x = x * 256 + (b as u64);
        i = i - 1;
    }
    proof {
        assert(s.skip(0) =~= s);
    }
    x
}

// ---- the blob format ----

/// Hashes, concatenated.
pub open spec fn enc_hashes(hs: Seq<Seq<u8>>) -> Seq<u8>
    decreases hs.len(),
{
    if hs.len() == 0 {
        Seq::<u8>::empty()
    } else {
        hs.first() + enc_hashes(hs.drop_first())
    }
}

/// One file entry: path length, path bytes, size, then the hashes.
pub open spec fn enc_file(f: FileView) -> Seq<u8> {
    enc_le(f.path.len() as int, 8) + f.path + enc_le(f.size as int, 8) + enc_hashes(f.hashes)
}

/// File entries, concatenated.
pub open spec fn enc_files(fs: Seq<FileView>) -> Seq<u8>
    decreases fs.len(),
{
    if fs.len() == 0 {
        Seq::<u8>::empty()
    } else {
        enc_file(fs.first()) + enc_files(fs.drop_first())
    }
}

/// A whole index blob: block size, file count, then the entries.
pub open spec fn enc_index(x: IndexView) -> Seq<u8> {
    enc_le(x.block_size as int, 8) + enc_le(x.files.len() as int, 8) + enc_files(x.files)
}

pub proof fn lemma_enc_hashes_snoc(hs: Seq<Seq<u8>>, h: Seq<u8>)
    ensures
        enc_hashes(hs.push(h)) == enc_hashes(hs) + h,
    decreases hs.len(),
{
    reveal_with_fuel(enc_hashes, 3);
    if hs.len() == 0 {
        assert(hs.push(h).first() == h);
        assert(hs.push(h).drop_first() =~= Seq::<Seq<u8>>::empty());
        assert(enc_hashes(hs.push(h)) =~= enc_hashes(hs) + h);
    } else {
        assert(hs.push(h).first() == hs.first());
        assert(hs.push(h).drop_first() =~= hs.drop_first().push(h));
        lemma_enc_hashes_snoc(hs.drop_first(), h);
        assert(hs.first() + (enc_hashes(hs.drop_first()) + h) =~= (hs.first() + enc_hashes(
            hs.drop_first(),
        )) + h);
    }
}

pub proof fn lemma_enc_files_snoc(fs: Seq<FileView>, f: FileView)
    ensures
        enc_files(fs.push(f)) == enc_files(fs) + enc_file(f),
    decreases fs.len(),
{
    reveal_with_fuel(enc_files, 3);
    if fs.len() == 0 {
        assert(fs.push(f).first() == f);
        assert(fs.push(f).drop_first() =~= Seq::<FileView>::empty());
        assert(enc_files(fs.push(f)) =~= enc_files(fs) + enc_file(f));
    } else {
        assert(fs.push(f).first() == fs.first());
        assert(fs.push(f).drop_first() =~= fs.drop_first().push(f));
        lemma_enc_files_snoc(fs.drop_first(), f);
        assert(enc_file(fs.first()) + (enc_files(fs.drop_first()) + enc_file(f)) =~= (enc_file(
            fs.first(),
        ) + enc_files(fs.drop_first())) + enc_file(f));
    }
}

pub proof fn lemma_enc_hashes_len(hs: Seq<Seq<u8>>)
    requires
        forall|i: int| 0 <= i < hs.len() ==> (#[trigger] hs[i]).len() == DIGEST_LEN,
    ensures
        enc_hashes(hs).len() == DIGEST_LEN * hs.len(),
    decreases hs.len(),
{
    if hs.len() > 0 {
        assert(hs.first() == hs[0]);
        assert forall|i: int| 0 <= i < hs.drop_first().len() implies (
        #[trigger] hs.drop_first()[i]).len() == DIGEST_LEN by {
            assert(hs.drop_first()[i] == hs[i + 1]);
        }
        lemma_enc_hashes_len(hs.drop_first());
    }
}

/// The `i`th 32-byte window of concatenated hashes is the `i`th hash.
pub proof fn lemma_enc_hashes_slice(hs: Seq<Seq<u8>>, i: int)
    requires
        forall|j: int| 0 <= j < hs.len() ==> (#[trigger] hs[j]).len() == DIGEST_LEN,
        0 <= i < hs.len(),
    ensures
        enc_hashes(hs).subrange(DIGEST_LEN * i, DIGEST_LEN * i + DIGEST_LEN) == hs[i],
    decreases i,
{
    lemma_enc_hashes_len(hs);
    let e = enc_hashes(hs);
    if i == 0 {
        assert(hs.first() == hs[0]);
        assert(e.subrange(0, DIGEST_LEN as int) =~= hs[0]);
    } else {
        assert forall|j: int| 0 <= j < hs.drop_first().len() implies (
        #[trigger] hs.drop_first()[j]).len() == DIGEST_LEN by {
            assert(hs.drop_first()[j] == hs[j + 1]);
        }
        lemma_enc_hashes_slice(hs.drop_first(), i - 1);
        lemma_enc_hashes_len(hs.drop_first());
        assert(hs.drop_first()[i - 1] == hs[i]);
        assert(e.subrange(DIGEST_LEN * i, DIGEST_LEN * i + DIGEST_LEN) =~= enc_hashes(
            hs.drop_first(),
        ).subrange(DIGEST_LEN * (i - 1), DIGEST_LEN * (i - 1) + DIGEST_LEN));
    }
}

/// Serialize an index to its blob.
pub fn serialize(x: &IndexData) -> (out: Vec<u8>)
    requires
        x.wf(),
    ensures
        out@ == enc_index(x@),
{
    let mut out: Vec<u8> = Vec::new();
    write_u64(&mut out, x.block_size);
    write_u64(&mut out, x.files.len() as u64);
    let ghost header = out@;
    proof {
        assert(x@.files =~= x.files@.map_values(|f: FileEntry| f@));
        assert(enc_files(x@.files.take(0)) =~= Seq::<u8>::empty()) by {
            assert(x@.files.take(0) =~= Seq::<FileView>::empty());
        }
        assert(out@ + Seq::<u8>::empty() =~= out@);
        assert((Seq::<u8>::empty() + enc_le(x.block_size as int, 8)) =~= enc_le(
            x.block_size as int,
            8,
        ));
    }
    let mut i: usize = 0;
    while i < x.files.len()
        invariant
            i <= x.files@.len(),
            x.wf(),
            x@.files.len() == x.files@.len(),
            header == enc_le(x.block_size as int, 8) + enc_le(x.files@.len() as int, 8),
            out@ == header + enc_files(x@.files.take(i as int)),
        decreases x.files@.len() - i,
    {
        let f = &x.files[i];
        proof {
            assert(x@.files[i as int] == f@);
            assert(file_view_wf(f@, x.block_size));
        }
        let ghost file_start = out@;
        write_u64(&mut out, f.path.len() as u64);
        let mut j: usize = 0;
        let ghost after_plen = out@;
        while j < f.path.len()
            invariant
                j <= f.path@.len(),
                out@ == after_plen + f.path@.take(j as int),
            decreases f.path@.len() - j,
        {
            out.push(f.path[j]);
            proof {
                assert(after_plen + f.path@.take(j as int + 1) =~= (after_plen + f.path@.take(
                    j as int,
                )).push(f.path@[j as int]));
            }
            j = j + 1;
        }
        proof {
            assert(f.path@.take(f.path@.len() as int) =~= f.path@);
        }
        write_u64(&mut out, f.size);
        let ghost after_size = out@;
        proof {
            assert(enc_hashes(f@.hashes.take(0)) =~= Seq::<u8>::empty()) by {
                assert(f@.hashes.take(0) =~= Seq::<Seq<u8>>::empty());
            }
            assert(after_size + Seq::<u8>::empty() =~= after_size);
        }
        let mut k: usize = 0;
        while k < f.hashes.len()
            invariant
                k <= f.hashes@.len(),
                f@.hashes.len() == f.hashes@.len(),
                forall|m: int| 0 <= m < f.hashes@.len() ==> (#[trigger] f@.hashes[m]) == f.hashes@[m]@,
                out@ == after_size + enc_hashes(f@.hashes.take(k as int)),
            decreases f.hashes@.len() - k,
        {
            let h = &f.hashes[k];
            let ghost before_h = out@;
            let mut m: usize = 0;
            while m < h.bytes.len()
                invariant
                    m <= h.bytes@.len(),
                    out@ == before_h + h.bytes@.take(m as int),
                decreases h.bytes@.len() - m,
            {
                out.push(h.bytes[m]);
                proof {
                    assert(before_h + h.bytes@.take(m as int + 1) =~= (before_h + h.bytes@.take(
                        m as int,
                    )).push(h.bytes@[m as int]));
                }
                m = m + 1;
            }
            proof {
                assert(h.bytes@.take(h.bytes@.len() as int) =~= h.bytes@);
                assert(f@.hashes.take(k as int + 1) =~= f@.hashes.take(k as int).push(
                    f@.hashes[k as int],
                ));
                lemma_enc_hashes_snoc(f@.hashes.take(k as int), f@.hashes[k as int]);
                assert(f@.hashes[k as int] == h.bytes@);
                assert(after_size + (enc_hashes(f@.hashes.take(k as int)) + h.bytes@) =~= (
                after_size + enc_hashes(f@.hashes.take(k as int))) + h.bytes@);
            }
            k = k + 1;
        }
        proof {
            assert(f@.hashes.take(f@.hashes.len() as int) =~= f@.hashes);
            // the bytes appended for this file are exactly its encoding
            assert(out@ =~= file_start + enc_file(f@));
            assert(x@.files.take(i as int + 1) =~= x@.files.take(i as int).push(
                x@.files[i as int],
            ));
            lemma_enc_files_snoc(x@.files.take(i as int), x@.files[i as int]);
            assert(out@ =~= header + enc_files(x@.files.take(i as int + 1)));
        }
        i = i + 1;
    }
    proof {
        assert(x@.files.take(x@.files.len() as int) =~= x@.files);
        assert(out@ =~= enc_index(x@));
    }
    out
}

pub proof fn lemma_pow256_mono(a: nat, b: nat)
    requires
        a <= b,
    ensures
        pow256(a) <= pow256(b),
        pow256(a) >= 1,
    decreases b,
{
    if b > 0 {
        if a == b {
            lemma_pow256_mono((a - 1) as nat, (b - 1) as nat);
        } else {
            lemma_pow256_mono(a, (b - 1) as nat);
        }
    }
}

// ---- parsing ----

/// Parse one file entry from the front of `s` under block size `bs`.
pub open spec fn parse_file(s: Seq<u8>, bs: u64) -> Option<(FileView, Seq<u8>)> {
    if s.len() < 8 {
        None
    } else {
        let p = le_int(s.subrange(0, 8));
        if s.len() - 8 < p {
            None
        } else {
            let path = s.subrange(8, 8 + p);
            let r1 = s.skip(8 + p);
            if r1.len() < 8 {
                None
            } else {
                let size = le_int(r1.subrange(0, 8)) as u64;
                let k = blocks_of(size, bs);
                let r2 = r1.skip(8);
                if r2.len() < DIGEST_LEN * k {
                    None
                } else {
                    let hashes = Seq::new(
                        k as nat,
                        |i: int| r2.subrange(DIGEST_LEN * i, DIGEST_LEN * i + DIGEST_LEN),
                    );
                    Some((FileView { path, size, hashes }, r2.skip(DIGEST_LEN * k)))
                }
            }
        }
    }
}

/// Parse `n` file entries from the front of `s`.
pub open spec fn parse_files(s: Seq<u8>, bs: u64, n: nat) -> Option<(Seq<FileView>, Seq<u8>)>
    decreases n,
{
    if n == 0 {
        Some((Seq::<FileView>::empty(), s))
    } else {
        match parse_file(s, bs) {
            None => None,
            Some((f, r)) => match parse_files(r, bs, (n - 1) as nat) {
                None => None,
                Some((fs, r2)) => Some((seq![f] + fs, r2)),
            },
        }
    }
}

/// Parse a whole index blob.
pub open spec fn parse_index(s: Seq<u8>) -> Option<IndexView> {
    if s.len() < 16 {
        None
    } else {
        let bs = le_int(s.subrange(0, 8)) as u64;
        if bs == 0 {
            None
        } else {
            let n = le_int(s.subrange(8, 16));
            match parse_files(s.skip(16), bs, n as nat) {
                None => None,
                Some((fs, rest)) => if rest.len() == 0 {
                    Some(IndexView { block_size: bs, files: fs })
                } else {
                    None
                },
            }
        }
    }
}

/// Parsing undoes serialization for one file entry.
pub proof fn lemma_parse_file_roundtrip(f: FileView, tail: Seq<u8>, bs: u64)
    requires
        bs >= 1,
        file_view_wf(f, bs),
        f.path.len() < pow256(8),
    ensures
        parse_file(enc_file(f) + tail, bs) == Some((f, tail)),
{
    let s = enc_file(f) + tail;
    let a = enc_le(f.path.len() as int, 8);
    let b = f.path;
    let c = enc_le(f.size as int, 8);
    let d = enc_hashes(f.hashes);
    lemma_enc_le_len(f.path.len() as int, 8);
    lemma_enc_le_len(f.size as int, 8);
    lemma_enc_hashes_len(f.hashes);
    lemma_pow256_64();
    lemma_le_roundtrip(f.path.len() as int, 8);
    lemma_le_roundtrip(f.size as int, 8);
    assert(s =~= a + b + c + d + tail);
    assert(s.len() >= 8);
    assert(s.subrange(0, 8) =~= a);
    let p = le_int(s.subrange(0, 8));
    assert(p == f.path.len());
    assert(s.len() - 8 >= p);
    assert(s.subrange(8, 8 + p) =~= b);
    let r1 = s.skip(8 + p);
    assert(r1 =~= c + d + tail);
    assert(r1.len() >= 8);
    assert(r1.subrange(0, 8) =~= c);
    let size = le_int(r1.subrange(0, 8)) as u64;
    assert(size == f.size);
    let k = blocks_of(size, bs);
    assert(k == f.hashes.len());
    let r2 = r1.skip(8);
    assert(r2 =~= d + tail);
    assert(r2.len() >= DIGEST_LEN * k);
    let hashes = Seq::new(
        k as nat,
        |i: int| r2.subrange(DIGEST_LEN * i, DIGEST_LEN * i + DIGEST_LEN),
    );
    assert forall|i: int| 0 <= i < k implies hashes[i] == f.hashes[i] by {
        lemma_enc_hashes_slice(f.hashes, i);
        assert(r2.subrange(DIGEST_LEN * i, DIGEST_LEN * i + DIGEST_LEN) =~= d.subrange(
            DIGEST_LEN * i,
            DIGEST_LEN * i + DIGEST_LEN,
        ));
    }
    assert(hashes =~= f.hashes);
    assert(r2.skip(DIGEST_LEN * k) =~= tail);
    assert(parse_file(s, bs) == Some((FileView { path: b, size, hashes }, r2.skip(
        DIGEST_LEN * k,
    ))));
    assert(FileView { path: b, size, hashes } == f);
}

/// Parsing undoes serialization for a run of file entries.
pub proof fn lemma_parse_files_roundtrip(fs: Seq<FileView>, tail: Seq<u8>, bs: u64)
    requires
        bs >= 1,
        forall|i: int| 0 <= i < fs.len() ==> file_view_wf(#[trigger] fs[i], bs),
        forall|i: int| 0 <= i < fs.len() ==> (#[trigger] fs[i]).path.len() < pow256(8),
    ensures
        parse_files(enc_files(fs) + tail, bs, fs.len() as nat) == Some((fs, tail)),
    decreases fs.len(),
{
    if fs.len() == 0 {
        assert(enc_files(fs) + tail =~= tail);
        assert(Seq::<FileView>::empty() =~= fs);
    } else {
        let f = fs.first();
        let rest = fs.drop_first();
        assert(fs[0] == f);
        assert forall|i: int| 0 <= i < rest.len() implies file_view_wf(#[trigger] rest[i], bs)
            && rest[i].path.len() < pow256(8) by {
            assert(rest[i] == fs[i + 1]);
        }
        assert(enc_files(fs) + tail =~= enc_file(f) + (enc_files(rest) + tail));
        lemma_parse_file_roundtrip(f, enc_files(rest) + tail, bs);
        lemma_parse_files_roundtrip(rest, tail, bs);
        assert(seq![f] + rest =~= fs);
    }
}

/// The number of blocks of a file of `size` bytes, executable form.
pub fn block_count(size: u64, bs: u64) -> (k: u64)
    requires
        bs >= 1,
    ensures
        k as int == blocks_of(size, bs),
{
    let q = size / bs;
    if size % bs != 0 {
        proof {
            assert(bs >= 2) by {
                assert(size as int % 1int == 0);
            }
            assert(size as int / bs as int <= size as int / 2) by (nonlinear_arith)
                requires
                    bs >= 2,
                    size >= 0,
            ;
        }
        q + 1
    } else {
        q
    }
}

impl IndexData {
    /// Decide well-formedness: a nonzero block size, and per file as
    /// many hashes as blocks, each of digest width.
    pub fn check_wf(&self) -> (r: bool)
        ensures
            r == self.wf(),
    {
        if self.block_size == 0 {
            return false;
        }
        let mut i: usize = 0;
        while i < self.files.len()
            invariant
                i <= self.files@.len(),
                self.block_size >= 1,
                self@.files.len() == self.files@.len(),
                forall|j: int| 0 <= j < i ==> file_view_wf(#[trigger] self@.files[j], self.block_size),
            decreases self.files@.len() - i,
        {
            let f = &self.files[i];
            proof {
                assert(self@.files[i as int] == f@);
            }
            let k = block_count(f.size, self.block_size);
            if !(f.hashes.len() as u64 == k) {
                proof {
                    assert(!file_view_wf(self@.files[i as int], self.block_size));
                }
                return false;
            }
            let mut m: usize = 0;
            while m < f.hashes.len()
                invariant
                    m <= f.hashes@.len(),
                    i < self.files@.len(),
                    self@.files.len() == self.files@.len(),
                    self@.files[i as int] == f@,
                    f@.hashes.len() == f.hashes@.len(),
                    forall|n: int| 0 <= n < f.hashes@.len() ==> (#[trigger] f@.hashes[n]) == f.hashes@[n]@,
                    forall|n: int| 0 <= n < m ==> (#[trigger] f@.hashes[n]).len() == DIGEST_LEN,
                decreases f.hashes@.len() - m,
            {
                if f.hashes[m].bytes.len() != DIGEST_LEN {
                    proof {
                        assert(f@.hashes[m as int].len() != DIGEST_LEN);
                        assert(!file_view_wf(self@.files[i as int], self.block_size));
                    }
                    return false;
                }
                m = m + 1;
            }
            i = i + 1;
        }
        true
    }
}

/// Number of blocks in each file before file `i`.
pub open spec fn block_base(x: IndexView, i: int) -> int
    decreases i,
{
    if i <= 0 {
        0
    } else {
        block_base(x, i - 1) + blocks_of(x.files[i - 1].size, x.block_size)
    }
}

/// Two blocks carry the same hash, path and offset.
pub open spec fn blk_eq(a: crate::progress::Block, h: Seq<u8>, p: Seq<u8>, off: int) -> bool {
    a.hash@ == h && a.path@ == p && a.offset == off
}

/// The ordered list of blocks an index induces: for each file in order,
/// one block per hash, at offset `ordinal * block_size` within the file.
pub fn block_list(x: &IndexData) -> (r: Vec<crate::progress::Block>)
    requires
        x.wf(),
    ensures
        r@.len() == block_base(x@, x@.files.len() as int),
        forall|i: int, j: int|
            0 <= i < x@.files.len() && 0 <= j < blocks_of(x@.files[i].size, x@.block_size)
                ==> blk_eq(
                #[trigger] r@[block_base(x@, i) + j],
                x@.files[i].hashes[j],
                x@.files[i].path,
                j * x@.block_size as int,
            ),
{
    let mut r: Vec<crate::progress::Block> = Vec::new();
    let mut i: usize = 0;
    while i < x.files.len()
        invariant
            i <= x.files@.len(),
            x.wf(),
            x@.files.len() == x.files@.len(),
            r@.len() == block_base(x@, i as int),
            forall|a: int, j: int|
                0 <= a < i && 0 <= j < blocks_of(x@.files[a].size, x@.block_size) ==> blk_eq(
                    #[trigger] r@[block_base(x@, a) + j],
                    x@.files[a].hashes[j],
                    x@.files[a].path,
                    j * x@.block_size as int,
                ),
        decreases x.files@.len() - i,
    {
        let f = &x.files[i];
        proof {
            assert(x@.files[i as int] == f@);
            assert(file_view_wf(f@, x.block_size));
            lemma_block_base_nonneg(x@, i as int);
        }
        let ghost base_i = block_base(x@, i as int);
        let mut j: usize = 0;
        while j < f.hashes.len()
            invariant
                j <= f.hashes@.len(),
                x.wf(),
                i < x.files@.len(),
                x@.files.len() == x.files@.len(),
                x@.files[i as int] == f@,
                f@.hashes.len() == f.hashes@.len(),
                file_view_wf(f@, x.block_size),
                x.block_size == x@.block_size,
                base_i == block_base(x@, i as int),
                base_i >= 0,
                r@.len() == base_i + j,
                forall|a: int, jj: int|
                    0 <= a < i && 0 <= jj < blocks_of(x@.files[a].size, x@.block_size) ==> blk_eq(
                        #[trigger] r@[block_base(x@, a) + jj],
                        x@.files[a].hashes[jj],
                        x@.files[a].path,
                        jj * x@.block_size as int,
                    ),
                forall|jj: int|
                    0 <= jj < j ==> blk_eq(
                        #[trigger] r@[base_i + jj],
                        f@.hashes[jj],
                        f@.path,
                        jj * x@.block_size as int,
                    ),
            decreases f.hashes@.len() - j,
        {
            proof {
                assert(j < blocks_of(f.size, x.block_size));
                assert(j * x.block_size as int + x.block_size as int <= f.size as int
                    + x.block_size as int) by (nonlinear_arith)
                    requires
                        x.block_size >= 1,
                        0 <= j,
                        j < blocks_of(f.size, x.block_size),
                        blocks_of(f.size, x.block_size) == f.size as int / x.block_size as int + (
                        if f.size as int % x.block_size as int != 0 {
                            1int
                        } else {
                            0int
                        }),
                ;
            }
            let offset = (j as u64) * x.block_size;
            let mut path: Vec<u8> = Vec::new();
            let mut m: usize = 0;
            while m < f.path.len()
                invariant
                    m <= f.path@.len(),
                    path@ == f.path@.subrange(0, m as int),
                decreases f.path@.len() - m,
            {
                path.push(f.path[m]);
                m = m + 1;
            }
            proof {
                assert(path@ =~= f.path@);
            }
            let b = crate::progress::Block {
                hash: f.hashes[j].clone_hash(),
                path,
                offset,
            };
            let ghost old_r = r@;
            r.push(b);
            proof {
                assert forall|a: int, jj: int|
                    0 <= a < i && 0 <= jj < blocks_of(x@.files[a].size, x@.block_size) implies
                    blk_eq(
                        #[trigger] r@[block_base(x@, a) + jj],
                        x@.files[a].hashes[jj],
                        x@.files[a].path,
                        jj * x@.block_size as int,
                    ) by {
                    lemma_block_base_nonneg(x@, a);
                    lemma_block_base_mono(x@, a + 1, i as int);
                    assert(block_base(x@, a + 1) == block_base(x@, a) + blocks_of(
                        x@.files[a].size,
                        x@.block_size,
                    ));
                    assert(block_base(x@, a) + jj < old_r.len());
                    assert(r@[block_base(x@, a) + jj] == old_r[block_base(x@, a) + jj]);
                }
                assert forall|jj: int| 0 <= jj < j + 1 implies blk_eq(
                    #[trigger] r@[base_i + jj],
                    f@.hashes[jj],
                    f@.path,
                    jj * x@.block_size as int,
                ) by {
                    if jj < j {
                        assert(r@[base_i + jj] == old_r[base_i + jj]);
                    } else {
                        assert(r@[base_i + jj] == b);
                        assert(b.hash@ == f@.hashes[jj]);
                    }
                }
            }
            j = j + 1;
        }
        proof {
            assert(block_base(x@, i as int + 1) == base_i + blocks_of(f@.size, x@.block_size));
        }
        i = i + 1;
    }
    r
}

pub proof fn lemma_block_base_mono(x: IndexView, a: int, b: int)
    requires
        index_view_wf(x),
        0 <= a <= b <= x.files.len(),
    ensures
        block_base(x, a) <= block_base(x, b),
    decreases b,
{
    if a < b {
        lemma_block_base_mono(x, a, b - 1);
        assert(file_view_wf(x.files[b - 1], x.block_size));
        assert(blocks_of(x.files[b - 1].size, x.block_size) >= 0);
    }
}

pub proof fn lemma_block_base_nonneg(x: IndexView, i: int)
    requires
        index_view_wf(x),
        0 <= i <= x.files.len(),
    ensures
        block_base(x, i) >= 0,
    decreases i,
{
    if i > 0 {
        lemma_block_base_nonneg(x, i - 1);
        assert(file_view_wf(x.files[i - 1], x.block_size));
        assert(blocks_of(x.files[i - 1].size, x.block_size) >= 0);
    }
}

/// Why an index blob was rejected.
#[derive(Clone, Copy, PartialEq, Eq, Debug)]
pub enum ParseError {
    /// The blob ends before the structure it announces.
    Truncated,
    /// The header's block size is zero.
    ZeroBlockSize,
    /// Bytes remain after the last announced file entry.
    TrailingBytes,
}

/// Parse one file entry at byte `pos`.  On success, returns the entry
/// and the position just past it.
fn parse_file_at(bytes: &Vec<u8>, pos: usize, bs: u64) -> (r: Result<(FileEntry, usize), ParseError>)
    requires
        pos <= bytes@.len(),
        bs >= 1,
    ensures
        (match r {
            Ok(pr) => {
                &&& parse_file(bytes@.skip(pos as int), bs) == Some(
                    (pr.0@, bytes@.skip(pr.1 as int)),
                )
                &&& pos <= pr.1 <= bytes@.len()
                &&& file_view_wf(pr.0@, bs)
            },
            Err(_) => parse_file(bytes@.skip(pos as int), bs) is None,
        }),
{
    let ghost s = bytes@.skip(pos as int);
    let n = bytes.len();
    if n - pos < 8 {
        return Err(ParseError::Truncated);
    }
    let plen = read_u64(bytes, pos);
    proof {
        assert(s.subrange(0, 8) =~= bytes@.subrange(pos as int, pos as int + 8));
        lemma_le_int_bound(s.subrange(0, 8));
        lemma_pow256_64();
    }
    if ((n - pos - 8) as u64) < plen {
        proof {
            assert(s.len() - 8 < le_int(s.subrange(0, 8)));
        }
        return Err(ParseError::Truncated);
    }
    let p = plen as usize;
    let mut path: Vec<u8> = Vec::new();
    let mut j: usize = 0;
    while j < p
        invariant
            j <= p,
            pos + 8 + p <= n,
            n == bytes@.len(),
            path@ == bytes@.subrange(pos as int + 8, pos as int + 8 + j),
        decreases p - j,
    {
        path.push(bytes[pos + 8 + j]);
        proof {
            assert(bytes@.subrange(pos as int + 8, pos as int + 8 + j + 1) =~= bytes@.subrange(
                pos as int + 8,
                pos as int + 8 + j,
            ).push(bytes@[pos as int + 8 + j]));
        }
        j = j + 1;
    }
    let pos2 = pos + 8 + p;
    let ghost r1 = s.skip(8 + plen as int);
    proof {
        assert(r1 =~= bytes@.skip(pos2 as int));
        assert(path@ =~= s.subrange(8, 8 + plen as int));
    }
    if n - pos2 < 8 {
        return Err(ParseError::Truncated);
    }
    let size = read_u64(bytes, pos2);
    proof {
        assert(r1.subrange(0, 8) =~= bytes@.subrange(pos2 as int, pos2 as int + 8));
        lemma_le_int_bound(r1.subrange(0, 8));
        lemma_pow256_64();
        assert(le_int(r1.subrange(0, 8)) as u64 == size);
    }
    let k: u64 = block_count(size, bs);
    let pos3 = pos2 + 8;
    let ghost r2 = r1.skip(8);
    proof {
        assert(r2 =~= bytes@.skip(pos3 as int));
    }
    let avail = ((n - pos3) / DIGEST_LEN) as u64;
    if k > avail {
        proof {
            assert(r2.len() < DIGEST_LEN * k as int);
        }
        return Err(ParseError::Truncated);
    }
    let kk = k as usize;
    proof {
        assert(DIGEST_LEN * k as int <= r2.len());
    }
    let mut hashes: Vec<Hash256> = Vec::new();
    let mut hi: usize = 0;
    while hi < kk
        invariant
            hi <= kk,
            pos3 + DIGEST_LEN * kk <= n,
            n == bytes@.len(),
            hashes@.len() == hi,
            forall|m: int|
                0 <= m < hi ==> (#[trigger] hashes@[m])@ == bytes@.subrange(
                    pos3 as int + DIGEST_LEN * m,
                    pos3 as int + DIGEST_LEN * m + DIGEST_LEN,
                ) && hashes@[m].wf(),
        decreases kk - hi,
    {
        let start = pos3 + DIGEST_LEN * hi;
        let mut hb: Vec<u8> = Vec::new();
        let mut m: usize = 0;
        while m < DIGEST_LEN
            invariant
                m <= DIGEST_LEN,
                start + DIGEST_LEN <= n,
                n == bytes@.len(),
                hb@ == bytes@.subrange(start as int, start as int + m),
            decreases DIGEST_LEN - m,
        {
            hb.push(bytes[start + m]);
            proof {
                assert(bytes@.subrange(start as int, start as int + m + 1) =~= bytes@.subrange(
                    start as int,
                    start as int + m,
                ).push(bytes@[start as int + m]));
            }
            m = m + 1;
        }
        hashes.push(Hash256 { bytes: hb });
        hi = hi + 1;
    }
    let newpos = pos3 + DIGEST_LEN * kk;
    let f = FileEntry { path, size, hashes };
    proof {
        assert(f@.hashes =~= Seq::new(
            k as nat,
            |i: int| r2.subrange(DIGEST_LEN * i, DIGEST_LEN * i + DIGEST_LEN),
        )) by {
            assert forall|i: int| 0 <= i < k implies f@.hashes[i] == r2.subrange(
                DIGEST_LEN * i,
                DIGEST_LEN * i + DIGEST_LEN,
            ) by {
                assert(f@.hashes[i] == f.hashes@[i]@);
                assert(r2.subrange(DIGEST_LEN * i, DIGEST_LEN * i + DIGEST_LEN) =~= bytes@.subrange(
                    pos3 as int + DIGEST_LEN * i,
                    pos3 as int + DIGEST_LEN * i + DIGEST_LEN,
                ));
            }
        }
        assert(r2.skip(DIGEST_LEN * k as int) =~= bytes@.skip(newpos as int));
        assert(file_view_wf(f@, bs));
        assert(parse_file(s, bs) == Some((f@, bytes@.skip(newpos as int))));
    }
    Ok((f, newpos))
}

/// Parse an index blob.  Succeeds exactly on the blobs the spec-level
/// parser accepts, and returns the same index.
pub fn parse(bytes: &Vec<u8>) -> (r: Result<IndexData, ParseError>)
    ensures
        (match r {
            Ok(y) => parse_index(bytes@) == Some(y@) && y.wf(),
            Err(_) => parse_index(bytes@) is None,
        }),
{
    let n = bytes.len();
    if n < 16 {
        return Err(ParseError::Truncated);
    }
    let bs = read_u64(bytes, 0);
    proof {
        assert(bytes@.subrange(0, 8) =~= bytes@.subrange(0int, 0int + 8));
        lemma_le_int_bound(bytes@.subrange(0, 8));
        lemma_pow256_64();
    }
    if bs == 0 {
        return Err(ParseError::ZeroBlockSize);
    }
    let count = read_u64(bytes, 8);
    proof {
        assert(bytes@.subrange(8, 16) =~= bytes@.subrange(8int, 8int + 8));
        lemma_le_int_bound(bytes@.subrange(8, 16));
        lemma_pow256_64();
    }
    let mut files: Vec<FileEntry> = Vec::new();
    let mut pos: usize = 16;
    let mut i: u64 = 0;
    proof {
        assert(bytes@.skip(16) =~= bytes@.skip(pos as int));
    }
    while i < count
        invariant
            i <= count,
            16 <= pos <= n,
            n == bytes@.len(),
            bs >= 1,
            bs as int == le_int(bytes@.subrange(0, 8)),
            count as int == le_int(bytes@.subrange(8, 16)),
            files@.len() == i,
            forall|m: int|
                0 <= m < files@.len() ==> file_view_wf((#[trigger] files@[m])@, bs),
            (match parse_files(bytes@.skip(pos as int), bs, (count - i) as nat) {
                None => parse_files(bytes@.skip(16), bs, count as nat) is None,
                Some(pr) => parse_files(bytes@.skip(16), bs, count as nat) == Some(
                    (files@.map_values(|f: FileEntry| f@) + pr.0, pr.1),
                ),
            }),
        decreases count - i,
    {
        let step = parse_file_at(bytes, pos, bs);
        match step {
            Ok((f, newpos)) => {
                let ghost old_files = files@;
                files.push(f);
                proof {
                    assert(files@.map_values(|f2: FileEntry| f2@) =~= old_files.map_values(
                        |f2: FileEntry| f2@,
                    ).push(f@));
                    assert forall|fs2: Seq<FileView>|
                        true implies old_files.map_values(|f2: FileEntry| f2@) + (seq![f@] + fs2)
                        =~= old_files.map_values(|f2: FileEntry| f2@).push(f@) + fs2 by {}
                }
                pos = newpos;
                i = i + 1;
            },
            Err(e) => {
                return Err(e);
            },
        }
    }
    if pos != n {
        proof {
            assert(bytes@.skip(pos as int).len() > 0);
        }
        return Err(ParseError::TrailingBytes);
    }
    let y = IndexData { block_size: bs, files };
    proof {
        assert(bytes@.skip(pos as int).len() == 0);
        assert(y@.files + Seq::<FileView>::empty() =~= y@.files);
        assert(parse_index(bytes@) == Some(y@));
    }
    Ok(y)
}

/// The index round trip: parsing a serialized well-formed index yields
/// the index back, byte-for-byte and field-for-field.  The image
/// identifier is stable as well: it is [`crate::digest::digest_of`] of
/// the serialized bytes, a function of those bytes alone.
pub proof fn lemma_index_roundtrip(x: IndexView)
    requires
        index_view_wf(x),
        x.files.len() < pow256(8),
        forall|i: int| 0 <= i < x.files.len() ==> (#[trigger] x.files[i]).path.len() < pow256(8),
    ensures
        parse_index(enc_index(x)) == Some(x),
{
    let s = enc_index(x);
    let a = enc_le(x.block_size as int, 8);
    let b = enc_le(x.files.len() as int, 8);
    lemma_enc_le_len(x.block_size as int, 8);
    lemma_enc_le_len(x.files.len() as int, 8);
    lemma_pow256_64();
    lemma_le_roundtrip(x.block_size as int, 8);
    lemma_le_roundtrip(x.files.len() as int, 8);
    assert(s =~= a + b + enc_files(x.files));
    assert(s.len() >= 16);
    assert(s.subrange(0, 8) =~= a);
    assert(s.subrange(8, 16) =~= b);
    let bs = le_int(s.subrange(0, 8)) as u64;
    assert(bs == x.block_size);
    let n = le_int(s.subrange(8, 16));
    assert(n == x.files.len());
    assert(s.skip(16) =~= enc_files(x.files) + Seq::<u8>::empty());
    lemma_parse_files_roundtrip(x.files, Seq::<u8>::empty(), bs);
}

} // verus!
