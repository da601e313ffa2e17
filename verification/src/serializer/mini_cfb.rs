//! A small Compound File Binary (OLE2 structured storage) writer: a root
//! storage holding a flat list of streams, version 3 (512-byte sectors).
//!
//! Layout, in sector order: the FAT sectors, the directory, the MiniFAT,
//! the mini stream container (the streams under the 4096-byte cutoff, in
//! 64-byte mini sectors), then the larger streams, each in its own run of
//! sectors. All FAT sector numbers sit in the header's DIFAT array, which
//! bounds the file to 109 FAT sectors. The directory tree is the root's
//! child chain: the streams, in directory order, each the right sibling of
//! the one before.

use vstd::prelude::*;
use vstd::std_specs::iter::IteratorSpec;
use vstd::string::*;
use crate::bytes::{
    group_le_lengths, le16, le32, lemma_read_le16, lemma_read_le32, push_bytes, push_le16, push_le32,
    read_le16, read_le32,
};

verus! {

broadcast use group_le_lengths;

pub const SECTOR_SIZE: usize = 512;
pub const MINI_SECTOR_SIZE: usize = 64;
pub const MINI_STREAM_CUTOFF: usize = 4096;
pub const HEADER_DIFAT_SLOTS: usize = 109;

pub const FREESECT: u32 = 0xFFFF_FFFF;
pub const ENDOFCHAIN: u32 = 0xFFFF_FFFE;
pub const FATSECT: u32 = 0xFFFF_FFFD;
pub const NOSTREAM: u32 = 0xFFFF_FFFF;

/// `a / b` rounded up.
pub open spec fn ceil_div(a: int, b: int) -> int {
    (a + b - 1) / b
}

/// `n` copies of `v`.
pub open spec fn fill<T>(n: int, v: T) -> Seq<T> {
    Seq::new(n as nat, |i: int| v)
}

/// The little-endian bytes of each number in turn.
pub open spec fn le32_all(s: Seq<int>) -> Seq<u8>
    decreases s.len(),
{
    if s.len() == 0 {
        Seq::empty()
    } else {
        le32_all(s.drop_last()) + le32(s.last())
    }
}

/// A chain of `n` sectors numbered from `a`: each entry names the next
/// sector, the last ends the chain.
pub open spec fn chain(a: int, n: int) -> Seq<int> {
    Seq::new(
        n as nat,
        |i: int|
            if i + 1 < n {
                a + i + 1
            } else {
                ENDOFCHAIN as int
            },
    )
}

/// Streams under the cutoff live in the mini stream.
pub open spec fn is_small(len: int) -> bool {
    len < MINI_STREAM_CUTOFF
}

/// The mini sectors a stream takes.
pub open spec fn mini_sectors(len: int) -> int {
    if is_small(len) {
        ceil_div(len, MINI_SECTOR_SIZE as int)
    } else {
        0
    }
}

/// The regular sectors a stream takes.
pub open spec fn big_sectors(len: int) -> int {
    if is_small(len) {
        0
    } else {
        ceil_div(len, SECTOR_SIZE as int)
    }
}

/// The mini sectors of the streams before stream `j`.
pub open spec fn mini_before(lens: Seq<int>, j: int) -> int
    decreases j,
{
    if j <= 0 {
        0
    } else {
        mini_before(lens, j - 1) + mini_sectors(lens[j - 1])
    }
}

/// The regular sectors of the large streams before stream `j`.
pub open spec fn big_before(lens: Seq<int>, j: int) -> int
    decreases j,
{
    if j <= 0 {
        0
    } else {
        big_before(lens, j - 1) + big_sectors(lens[j - 1])
    }
}

pub open spec fn total_mini(lens: Seq<int>) -> int {
    mini_before(lens, lens.len() as int)
}

pub open spec fn total_big(lens: Seq<int>) -> int {
    big_before(lens, lens.len() as int)
}

/// Directory sectors: four 128-byte entries each, the root entry first.
pub open spec fn dir_sectors(lens: Seq<int>) -> int {
    ceil_div(lens.len() + 1 as int, 4)
}

/// MiniFAT sectors: 128 entries each.
pub open spec fn minifat_sectors(lens: Seq<int>) -> int {
    ceil_div(total_mini(lens), 128)
}

/// Sectors of the mini stream container: eight mini sectors each.
pub open spec fn container_sectors(lens: Seq<int>) -> int {
    ceil_div(total_mini(lens), 8)
}

/// The sectors that are not FAT sectors.
pub open spec fn other_sectors(lens: Seq<int>) -> int {
    dir_sectors(lens) + minifat_sectors(lens) + container_sectors(lens) + total_big(lens)
}

/// FAT sectors: 128 entries each, enough to cover themselves too.
pub open spec fn fat_sectors(lens: Seq<int>) -> int {
    ceil_div(other_sectors(lens), 127)
}

pub open spec fn first_dir(lens: Seq<int>) -> int {
    fat_sectors(lens)
}

pub open spec fn first_minifat(lens: Seq<int>) -> int {
    first_dir(lens) + dir_sectors(lens)
}

pub open spec fn first_container(lens: Seq<int>) -> int {
    first_minifat(lens) + minifat_sectors(lens)
}

pub open spec fn first_big(lens: Seq<int>) -> int {
    first_container(lens) + container_sectors(lens)
}

pub open spec fn total_sectors(lens: Seq<int>) -> int {
    fat_sectors(lens) + other_sectors(lens)
}

/// The chains of the large streams before stream `j`.
pub open spec fn big_chains(lens: Seq<int>, j: int) -> Seq<int>
    decreases j,
{
    if j <= 0 {
        Seq::empty()
    } else {
        big_chains(lens, j - 1) + chain(
            first_big(lens) + big_before(lens, j - 1),
            big_sectors(lens[j - 1]),
        )
    }
}

/// The FAT: FAT sectors marked as such, then the chains of the directory,
/// the MiniFAT, the mini stream container and each large stream, then free
/// entries to the end of the last FAT sector.
pub open spec fn fat_entries(lens: Seq<int>) -> Seq<int> {
    fill(fat_sectors(lens), FATSECT as int) + chain(first_dir(lens), dir_sectors(lens)) + chain(
        first_minifat(lens),
        minifat_sectors(lens),
    ) + chain(first_container(lens), container_sectors(lens)) + big_chains(
        lens,
        lens.len() as int,
    ) + fill(128 * fat_sectors(lens) - total_sectors(lens), FREESECT as int)
}

/// The mini sector chains of the small streams before stream `j`.
pub open spec fn mini_chains(lens: Seq<int>, j: int) -> Seq<int>
    decreases j,
{
    if j <= 0 {
        Seq::empty()
    } else {
        mini_chains(lens, j - 1) + chain(mini_before(lens, j - 1), mini_sectors(lens[j - 1]))
    }
}

/// The MiniFAT: the mini sector chains, then free entries to the end of its
/// last sector.
pub open spec fn minifat_entries(lens: Seq<int>) -> Seq<int> {
    mini_chains(lens, lens.len() as int) + fill(
        128 * minifat_sectors(lens) - total_mini(lens),
        FREESECT as int,
    )
}

/// A stream to store: its name and its bytes.
pub open spec fn lens_of(streams: Seq<(Seq<char>, Seq<u8>)>) -> Seq<int> {
    streams.map_values(|p: (Seq<char>, Seq<u8>)| p.1.len() as int)
}

pub open spec fn magic() -> Seq<u8> {
    seq![0xD0u8, 0xCFu8, 0x11u8, 0xE0u8, 0xA1u8, 0xB1u8, 0x1Au8, 0xE1u8]
}

/// The 109 DIFAT slots of the header: the FAT sector numbers, then free.
pub open spec fn header_difat(fat: int) -> Seq<int> {
    Seq::new(
        109,
        |i: int|
            if i < fat {
                i
            } else {
                FREESECT as int
            },
    )
}

/// The 512-byte header: signature, zero CLSID, minor version 0x3E, major
/// version 3, byte order 0xFFFE, sector shift 9, mini sector shift 6, six
/// reserved bytes, no directory sector count (version 3), the FAT sector
/// count, the first directory sector, no transaction signature, the mini
/// stream cutoff 4096, the first MiniFAT sector (or end of chain) and the
/// MiniFAT sector count, no DIFAT sectors, then the DIFAT slots.
pub open spec fn header_bytes(lens: Seq<int>) -> Seq<u8> {
    let mf = minifat_sectors(lens);
    magic() + fill(16, 0u8) + le16(0x003E) + le16(0x0003) + le16(0xFFFE) + le16(9) + le16(6)
        + fill(6, 0u8) + le32(0) + le32(fat_sectors(lens)) + le32(first_dir(lens)) + le32(0)
        + le32(MINI_STREAM_CUTOFF as int) + le32(
        if mf > 0 {
            first_minifat(lens)
        } else {
            ENDOFCHAIN as int
        },
    ) + le32(mf) + le32(ENDOFCHAIN as int) + le32(0) + le32_all(header_difat(fat_sectors(lens)))
}

/// The 64-byte name field: the name in UTF-16LE (each name character is
/// ASCII, one code unit), zero-terminated and zero-filled.
pub open spec fn name_field(name: Seq<char>) -> Seq<u8> {
    Seq::new(
        64,
        |i: int|
            if i % 2 == 0 && i / 2 < name.len() {
                (name[i / 2] as u32) as u8
            } else {
                0u8
            },
    )
}

/// The name length field: the name's UTF-16 bytes and the terminator.
pub open spec fn name_len_field(name: Seq<char>) -> int {
    if name.len() == 0 {
        0
    } else {
        2 * (name.len() + 1) as int
    }
}

/// One 128-byte directory entry: name, name length, object type, colour,
/// left and right sibling, child, zero CLSID, state bits, creation and
/// modification times, first sector and stream size.
pub open spec fn dir_entry(
    name: Seq<char>,
    obj_type: u8,
    color: u8,
    left: int,
    right: int,
    child: int,
    start: int,
    size: int,
) -> Seq<u8> {
    name_field(name) + le16(name_len_field(name)) + seq![obj_type, color] + le32(left) + le32(right)
        + le32(child) + fill(16, 0u8) + le32(0) + fill(16, 0u8) + le32(start) + le32(size) + le32(
        0,
    )
}

pub open spec fn root_name() -> Seq<char> {
    seq!['R', 'o', 'o', 't', ' ', 'E', 'n', 't', 'r', 'y']
}

/// The root storage: its child is the first stream, its stream the mini
/// stream container.
pub open spec fn root_entry(lens: Seq<int>) -> Seq<u8> {
    dir_entry(
        root_name(),
        5,
        1,
        NOSTREAM as int,
        NOSTREAM as int,
        if lens.len() > 0 {
            1
        } else {
            NOSTREAM as int
        },
        if container_sectors(lens) > 0 {
            first_container(lens)
        } else {
            ENDOFCHAIN as int
        },
        MINI_SECTOR_SIZE * total_mini(lens),
    )
}

/// Where stream `j`'s data starts: its first mini sector or sector, or end
/// of chain for an empty stream.
pub open spec fn stream_start(lens: Seq<int>, j: int) -> int {
    if is_small(lens[j]) {
        if mini_sectors(lens[j]) > 0 {
            mini_before(lens, j)
        } else {
            ENDOFCHAIN as int
        }
    } else {
        first_big(lens) + big_before(lens, j)
    }
}

/// The entry of stream `j` (directory entry `j + 1`); its right sibling is
/// the next stream.
pub open spec fn stream_entry(streams: Seq<(Seq<char>, Seq<u8>)>, j: int) -> Seq<u8> {
    let lens = lens_of(streams);
    dir_entry(
        streams[j].0,
        2,
        1,
        NOSTREAM as int,
        if j + 1 < streams.len() {
            j + 2
        } else {
            NOSTREAM as int
        },
        NOSTREAM as int,
        stream_start(lens, j),
        lens[j],
    )
}

/// The entries of the first `j` streams.
pub open spec fn stream_entries(streams: Seq<(Seq<char>, Seq<u8>)>, j: int) -> Seq<u8>
    decreases j,
{
    if j <= 0 {
        Seq::empty()
    } else {
        stream_entries(streams, j - 1) + stream_entry(streams, j - 1)
    }
}

/// An unused entry: all zero but the sibling and child fields.
pub open spec fn unused_entry() -> Seq<u8> {
    dir_entry(Seq::empty(), 0, 0, NOSTREAM as int, NOSTREAM as int, NOSTREAM as int, 0, 0)
}

/// `k` unused entries.
pub open spec fn unused_entries(k: int) -> Seq<u8>
    decreases k,
{
    if k <= 0 {
        Seq::empty()
    } else {
        unused_entries(k - 1) + unused_entry()
    }
}

/// The directory: the root, the streams, then unused entries to the end of
/// the last directory sector.
pub open spec fn dir_bytes(streams: Seq<(Seq<char>, Seq<u8>)>) -> Seq<u8> {
    let lens = lens_of(streams);
    root_entry(lens) + stream_entries(streams, streams.len() as int) + unused_entries(
        4 * dir_sectors(lens) - streams.len() - 1,
    )
}

/// A stream's data, zero-padded to whole units of `unit` bytes.
pub open spec fn padded(data: Seq<u8>, unit: int) -> Seq<u8> {
    data + fill(unit * ceil_div(data.len() as int, unit) - data.len(), 0u8)
}

/// The mini stream contents of the first `j` streams.
pub open spec fn small_data(streams: Seq<(Seq<char>, Seq<u8>)>, j: int) -> Seq<u8>
    decreases j,
{
    if j <= 0 {
        Seq::empty()
    } else {
        small_data(streams, j - 1) + if is_small(streams[j - 1].1.len() as int) {
            padded(streams[j - 1].1, MINI_SECTOR_SIZE as int)
        } else {
            Seq::empty()
        }
    }
}

/// The sectors of the large streams among the first `j`.
pub open spec fn big_data(streams: Seq<(Seq<char>, Seq<u8>)>, j: int) -> Seq<u8>
    decreases j,
{
    if j <= 0 {
        Seq::empty()
    } else {
        big_data(streams, j - 1) + if is_small(streams[j - 1].1.len() as int) {
            Seq::empty()
        } else {
            padded(streams[j - 1].1, SECTOR_SIZE as int)
        }
    }
}

/// The mini stream container: the small streams' mini sectors, zero-padded
/// to whole sectors.
pub open spec fn container_bytes(streams: Seq<(Seq<char>, Seq<u8>)>) -> Seq<u8> {
    let lens = lens_of(streams);
    small_data(streams, streams.len() as int) + fill(
        SECTOR_SIZE * container_sectors(lens) - MINI_SECTOR_SIZE * total_mini(lens),
        0u8,
    )
}

/// The whole compound file.
#[verifier::opaque]
pub open spec fn cfb_image(streams: Seq<(Seq<char>, Seq<u8>)>) -> Seq<u8> {
    let lens = lens_of(streams);
    header_bytes(lens) + le32_all(fat_entries(lens)) + dir_bytes(streams) + le32_all(
        minifat_entries(lens),
    ) + container_bytes(streams) + big_data(streams, streams.len() as int)
}

/// A stream name this writer stores: 1 to 31 ASCII characters, none of
/// `/`, `\`, `:`, `!`.
pub open spec fn valid_name(name: Seq<char>) -> bool {
    &&& 1 <= name.len() <= 31
    &&& forall|i: int|
        0 <= i < name.len() ==> {
            let c = #[trigger] name[i];
            &&& (c as u32) < 128
            &&& c != '/'
            &&& c != '\\'
            &&& c != ':'
            &&& c != '!'
        }
}

/// The code unit a name character is compared by: ASCII upper case.
pub open spec fn upper(c: char) -> int {
    upper_code(c as u32 as int)
}

/// ASCII upper case of a code unit.
pub open spec fn upper_code(k: int) -> int {
    if 97 <= k <= 122 {
        k - 32
    } else {
        k
    }
}

/// `a` sorts before `b` among names of the same length from position `i`:
/// compared code unit by code unit, in upper case.
pub open spec fn upper_less_from(a: Seq<char>, b: Seq<char>, i: int) -> bool
    decreases a.len() - i,
{
    if i < 0 || i >= a.len() || i >= b.len() {
        false
    } else if upper(a[i]) < upper(b[i]) {
        true
    } else if upper(a[i]) > upper(b[i]) {
        false
    } else {
        upper_less_from(a, b, i + 1)
    }
}

/// Directory order: shorter names first, names of one length by their upper
/// case code units.
pub open spec fn name_less(a: Seq<char>, b: Seq<char>) -> bool {
    a.len() < b.len() || (a.len() == b.len() && upper_less_from(a, b, 0))
}

/// The streams are listed in strictly increasing directory order.
pub open spec fn names_in_order(streams: Seq<(Seq<char>, Seq<u8>)>) -> bool {
    forall|j: int| 0 <= j < streams.len() - 1 ==> name_less(#[trigger] streams[j].0, streams[j + 1].0)
}

pub open spec fn all_names_valid(streams: Seq<(Seq<char>, Seq<u8>)>) -> bool {
    forall|j: int| 0 <= j < streams.len() ==> valid_name(#[trigger] streams[j].0)
}

/// The files this writer makes: valid names in directory order, and few
/// enough sectors for the header's DIFAT array.
pub open spec fn cfb_acceptable(streams: Seq<(Seq<char>, Seq<u8>)>) -> bool {
    &&& all_names_valid(streams)
    &&& names_in_order(streams)
    &&& fat_sectors(lens_of(streams)) <= HEADER_DIFAT_SLOTS
}

} // verus!

verus! {

/// Encoding a concatenation encodes each part.
pub proof fn lemma_le32_all_concat(a: Seq<int>, b: Seq<int>)
    ensures
        le32_all(a + b) == le32_all(a) + le32_all(b),
    decreases b.len(),
{
    if b.len() == 0 {
        assert(a + b =~= a);
        assert(le32_all(a) + le32_all(b) =~= le32_all(a));
    } else {
        lemma_le32_all_concat(a, b.drop_last());
        assert((a + b).drop_last() =~= a + b.drop_last());
        assert((a + b).last() == b.last());
        assert(le32_all(a) + le32_all(b) =~= le32_all(a) + le32_all(b.drop_last()) + le32(b.last()));
    }
}

/// Appends the little-endian encodings of `n` copies of `v`.
fn push_fill32(out: &mut Vec<u8>, n: usize, v: u32)
    ensures
        final(out)@ == old(out)@ + le32_all(fill(n as int, v as int)),
{
    let ghost start = out@;
    let mut i: usize = 0;
    while i < n
        invariant
            i <= n,
            out@ == start + le32_all(fill(i as int, v as int)),
        decreases n - i,
    {
        push_le32(out, v);
        proof {
            assert(fill((i + 1) as int, v as int).drop_last() =~= fill(i as int, v as int));
        }
        i = i + 1;
    }
}

/// Appends the little-endian encodings of a chain of `n` sectors from `a`.
fn push_chain(out: &mut Vec<u8>, a: usize, n: usize)
    requires
        a + n <= u32::MAX,
    ensures
        final(out)@ == old(out)@ + le32_all(chain(a as int, n as int)),
{
    let ghost start = out@;
    let mut i: usize = 0;
    while i < n
        invariant
            i <= n,
            a + n <= u32::MAX,
            out@ == start + le32_all(chain(a as int, n as int).take(i as int)),
        decreases n - i,
    {
        let v: u32 = if i + 1 < n {
            (a + i + 1) as u32
        } else {
            ENDOFCHAIN
        };
        push_le32(out, v);
        proof {
            let c = chain(a as int, n as int);
            assert(c.take((i + 1) as int).drop_last() =~= c.take(i as int));
            assert(c.take((i + 1) as int).last() == v as int);
        }
        i = i + 1;
    }
    proof {
        assert(chain(a as int, n as int).take(n as int) =~= chain(a as int, n as int));
    }
}

/// Appends `n` zero bytes.
fn push_zeros(out: &mut Vec<u8>, n: usize)
    ensures
        final(out)@ == old(out)@ + fill(n as int, 0u8),
{
    let ghost start = out@;
    let mut i: usize = 0;
    while i < n
        invariant
            i <= n,
            out@ == start + fill(i as int, 0u8),
        decreases n - i,
    {
        out.push(0);
        i = i + 1;
        assert(out@ =~= start + fill(i as int, 0u8));
    }
}

} // verus!

verus! {

/// A character a stream name may hold.
pub open spec fn name_char_ok(c: char) -> bool {
    &&& (c as u32) < 128
    &&& c != '/'
    &&& c != '\\'
    &&& c != ':'
    &&& c != '!'
}

/// The characters seen so far keep a name valid.
pub open spec fn name_prefix_ok(s: Seq<char>) -> bool {
    &&& s.len() <= 31
    &&& forall|i: int| 0 <= i < s.len() ==> name_char_ok(#[trigger] s[i])
}

proof fn lemma_name_prefix_push(s: Seq<char>, c: char)
    ensures
        name_prefix_ok(s.push(c)) == (name_prefix_ok(s) && name_char_ok(c) && s.len() < 31),
{
    let t = s.push(c);
    if name_prefix_ok(t) {
        assert(name_char_ok(t[s.len() as int]));
        assert forall|i: int| 0 <= i < s.len() implies name_char_ok(#[trigger] s[i]) by {
            assert(t[i] == s[i]);
        }
    }
    if name_prefix_ok(s) && name_char_ok(c) && s.len() < 31 {
        assert forall|i: int| 0 <= i < t.len() implies name_char_ok(#[trigger] t[i]) by {
            if i < s.len() {
                assert(t[i] == s[i]);
            }
        }
    }
}

/// The ASCII codes of a valid stream name.
fn name_units(name: &str) -> (r: Option<Vec<u8>>)
    ensures
        r is Some <==> valid_name(name@),
        r matches Some(u) ==> u@.len() == name@.len() && forall|i: int|
            0 <= i < name@.len() ==> u@[i] as u32 == name@[i] as u32,
{
    let ghost all = name@;
    let mut chars = name.chars();
    let mut units: Vec<u8> = Vec::new();
    let ghost mut done: Seq<char> = Seq::empty();
    let mut ok = true;
    loop
        invariant
            chars.remaining() == all.subrange(done.len() as int, all.len() as int),
            done.len() <= all.len(),
            done == all.subrange(0, done.len() as int),
            units@.len() == done.len(),
            ok == name_prefix_ok(done),
            ok ==> forall|i: int| 0 <= i < done.len() ==> units@[i] as u32 == done[i] as u32,
        ensures
            done == all,
            units@.len() == done.len(),
            ok == name_prefix_ok(done),
            ok ==> forall|i: int| 0 <= i < done.len() ==> units@[i] as u32 == done[i] as u32,
        decreases all.len() - done.len(),
    {
        match chars.next() {
            Some(c) => {
                let code: u32 = c as u32;
                let ascii = code < 128;
                let good = ascii && c != '/' && c != '\\' && c != ':' && c != '!'
                    && units.len() < 31;
                let unit: u8 = if ascii {
                    code as u8
                } else {
                    0
                };
                let ghost old_units = units@;
                units.push(unit);
                proof {
                    lemma_name_prefix_push(done, c);
                    let nd = done.push(c);
                    if ok && good {
                        assert forall|i: int| 0 <= i < nd.len() implies units@[i] as u32
                            == nd[i] as u32 by {
                            if i < done.len() {
                                assert(units@[i] == old_units[i]);
                            }
                        }
                    }
                    done = nd;
                    assert(done =~= all.subrange(0, done.len() as int));
                }
                if !good {
                    ok = false;
                }
            },
            None => {
                assert(done =~= all);
                break;
            },
        }
    }
    proof {
        if valid_name(all) {
            assert forall|i: int| 0 <= i < all.len() implies name_char_ok(#[trigger] all[i]) by {
                let c = all[i];
                assert((c as u32) < 128 && c != '/' && c != '\\' && c != ':' && c != '!');
            }
        }
    }
    if ok && units.len() >= 1 {
        Some(units)
    } else {
        None
    }
}

/// Whether name `a` sorts before name `b` in directory order, given their
/// ASCII codes.
fn units_less(a: &[u8], b: &[u8], Ghost(ca): Ghost<Seq<char>>, Ghost(cb): Ghost<Seq<char>>) -> (r:
    bool)
    requires
        a@.len() == ca.len(),
        b@.len() == cb.len(),
        forall|i: int| 0 <= i < ca.len() ==> a@[i] as u32 == ca[i] as u32,
        forall|i: int| 0 <= i < cb.len() ==> b@[i] as u32 == cb[i] as u32,
    ensures
        r == name_less(ca, cb),
{
    if a.len() < b.len() {
        return true;
    }
    if a.len() > b.len() {
        return false;
    }
    let mut i: usize = 0;
    while i < a.len()
        invariant
            a@.len() == ca.len(),
            b@.len() == cb.len(),
            a@.len() == b@.len(),
            i <= a@.len(),
            forall|k: int| 0 <= k < ca.len() ==> a@[k] as u32 == ca[k] as u32,
            forall|k: int| 0 <= k < cb.len() ==> b@[k] as u32 == cb[k] as u32,
            upper_less_from(ca, cb, 0) == upper_less_from(ca, cb, i as int),
        decreases a@.len() - i,
    {
        let x: u8 = if 97 <= a[i] && a[i] <= 122 {
            a[i] - 32
        } else {
            a[i]
        };
        let y: u8 = if 97 <= b[i] && b[i] <= 122 {
            b[i] - 32
        } else {
            b[i]
        };
        assert(x as int == upper(ca[i as int]));
        assert(y as int == upper(cb[i as int]));
        if x < y {
            return true;
        }
        if x > y {
            return false;
        }
        i = i + 1;
    }
    false
}

/// The streams to store, as names and bytes.
pub open spec fn streams_view(s: Seq<(&str, &[u8])>) -> Seq<(Seq<char>, Seq<u8>)> {
    s.map_values(|p: (&str, &[u8])| (p.0@, p.1@))
}

/// The most sectors besides the FAT that 109 FAT sectors can cover.
pub const MAX_OTHER_SECTORS: usize = 13843;

/// The sector counts of a file.
struct CfbPlan {
    n: usize,
    total_mini: usize,
    total_big: usize,
    dir: usize,
    minifat: usize,
    container: usize,
    fat: usize,
}

spec fn plan_ok(p: CfbPlan, lens: Seq<int>) -> bool {
    &&& p.n == lens.len()
    &&& p.total_mini == total_mini(lens)
    &&& p.total_big == total_big(lens)
    &&& p.dir == dir_sectors(lens)
    &&& p.minifat == minifat_sectors(lens)
    &&& p.container == container_sectors(lens)
    &&& p.fat == fat_sectors(lens)
    &&& p.fat <= HEADER_DIFAT_SLOTS
    &&& other_sectors(lens) <= MAX_OTHER_SECTORS
}

proof fn lemma_before_nonneg(lens: Seq<int>, j: int)
    requires
        j <= lens.len(),
        forall|i: int| 0 <= i < lens.len() ==> lens[i] >= 0,
    ensures
        0 <= mini_before(lens, j),
        0 <= big_before(lens, j),
    decreases j,
{
    if j > 0 {
        lemma_before_nonneg(lens, j - 1);
    }
}

proof fn lemma_before_monotone(lens: Seq<int>, j: int, k: int)
    requires
        0 <= j <= k <= lens.len(),
        forall|i: int| 0 <= i < lens.len() ==> lens[i] >= 0,
    ensures
        0 <= mini_before(lens, j) <= mini_before(lens, k),
        0 <= big_before(lens, j) <= big_before(lens, k),
    decreases k - j,
{
    lemma_before_nonneg(lens, j);
    if j < k {
        lemma_before_monotone(lens, j, k - 1);
    }
}

proof fn lemma_fat_bound(other: int)
    requires
        other >= 0,
    ensures
        ceil_div(other, 127) <= 109 <==> other <= 13843,
        ceil_div(other, 127) >= 0,
{
}

/// The sector counts, or `None` where more than 109 FAT sectors would be
/// needed.
fn plan_cfb(streams: &[(&str, &[u8])]) -> (r: Option<CfbPlan>)
    ensures
        r is Some <==> fat_sectors(lens_of(streams_view(streams@))) <= HEADER_DIFAT_SLOTS,
        r matches Some(p) ==> plan_ok(p, lens_of(streams_view(streams@))),
{
    let ghost lens = lens_of(streams_view(streams@));
    let n = streams.len();
    assert(lens.len() == n);
    assert forall|i: int| 0 <= i < lens.len() implies lens[i] >= 0 by {}
    if n > 4 * MAX_OTHER_SECTORS {
        proof {
            lemma_before_monotone(lens, 0, n as int);
            lemma_fat_bound(other_sectors(lens));
        }
        return None;
    }
    let mut tm: usize = 0;
    let mut tb: usize = 0;
    let mut j: usize = 0;
    while j < n
        invariant
            n == streams@.len(),
            lens == lens_of(streams_view(streams@)),
            lens.len() == n,
            n <= 4 * MAX_OTHER_SECTORS,
            forall|i: int| 0 <= i < lens.len() ==> lens[i] >= 0,
            j <= n,
            tm == mini_before(lens, j as int),
            tb == big_before(lens, j as int),
            tm <= 8 * MAX_OTHER_SECTORS,
            tb <= MAX_OTHER_SECTORS,
        decreases n - j,
    {
        let len = streams[j].1.len();
        assert(len == lens[j as int]);
        if len < MINI_STREAM_CUTOFF {
            tm = tm + (len + 63) / 64;
        } else {
            let extra: usize = if len % 512 != 0 {
                1
            } else {
                0
            };
            let add = len / 512 + extra;
            assert(add == ceil_div(len as int, 512));
            if add > MAX_OTHER_SECTORS - tb {
                proof {
                    lemma_before_monotone(lens, j as int + 1, n as int);
                    lemma_before_monotone(lens, 0, n as int);
                    lemma_fat_bound(other_sectors(lens));
                }
                return None;
            }
            tb = tb + add;
        }
        j = j + 1;
        if tm > 8 * MAX_OTHER_SECTORS {
            proof {
                lemma_before_monotone(lens, j as int, n as int);
                lemma_before_monotone(lens, 0, n as int);
                lemma_fat_bound(other_sectors(lens));
            }
            return None;
        }
    }
    let dir = (n + 1 + 3) / 4;
    let minifat = (tm + 127) / 128;
    let container = (tm + 7) / 8;
    let other = dir + minifat + container + tb;
    proof {
        lemma_before_monotone(lens, 0, n as int);
        lemma_fat_bound(other as int);
    }
    if other > MAX_OTHER_SECTORS {
        return None;
    }
    let fat = (other + 126) / 127;
    Some(CfbPlan { n, total_mini: tm, total_big: tb, dir, minifat, container, fat })
}

/// The header's DIFAT array.
fn push_header_difat(out: &mut Vec<u8>, fat: usize)
    requires
        fat <= HEADER_DIFAT_SLOTS,
    ensures
        final(out)@ == old(out)@ + le32_all(header_difat(fat as int)),
{
    let ghost start = out@;
    let ghost all = header_difat(fat as int);
    let mut i: usize = 0;
    while i < HEADER_DIFAT_SLOTS
        invariant
            i <= HEADER_DIFAT_SLOTS,
            fat <= HEADER_DIFAT_SLOTS,
            all == header_difat(fat as int),
            out@ == start + le32_all(all.take(i as int)),
        decreases HEADER_DIFAT_SLOTS - i,
    {
        let v: u32 = if i < fat {
            i as u32
        } else {
            FREESECT
        };
        push_le32(out, v);
        proof {
            assert(all.take((i + 1) as int).drop_last() =~= all.take(i as int));
            assert(all.take((i + 1) as int).last() == v as int);
        }
        i = i + 1;
    }
    assert(all.take(109) =~= all);
}

/// The 512-byte header.
fn header_vec(p: &CfbPlan, Ghost(lens): Ghost<Seq<int>>) -> (h: Vec<u8>)
    requires
        plan_ok(*p, lens),
    ensures
        h@ == header_bytes(lens),
{
    let mut h: Vec<u8> = Vec::new();
    h.push(0xD0);
    h.push(0xCF);
    h.push(0x11);
    h.push(0xE0);
    h.push(0xA1);
    h.push(0xB1);
    h.push(0x1A);
    h.push(0xE1);
    assert(h@ =~= magic());
    push_zeros(&mut h, 16);
    push_le16(&mut h, 0x003E);
    push_le16(&mut h, 0x0003);
    push_le16(&mut h, 0xFFFE);
    push_le16(&mut h, 9);
    push_le16(&mut h, 6);
    push_zeros(&mut h, 6);
    push_le32(&mut h, 0);
    push_le32(&mut h, p.fat as u32);
    push_le32(&mut h, p.fat as u32);
    push_le32(&mut h, 0);
    push_le32(&mut h, MINI_STREAM_CUTOFF as u32);
    let first_minifat: u32 = if p.minifat > 0 {
        (p.fat + p.dir) as u32
    } else {
        ENDOFCHAIN
    };
    push_le32(&mut h, first_minifat);
    push_le32(&mut h, p.minifat as u32);
    push_le32(&mut h, ENDOFCHAIN);
    push_le32(&mut h, 0);
    push_header_difat(&mut h, p.fat);
    h
}

/// The FAT.
fn fat_vec(streams: &[(&str, &[u8])], p: &CfbPlan) -> (v: Vec<u8>)
    requires
        plan_ok(*p, lens_of(streams_view(streams@))),
    ensures
        v@ == le32_all(fat_entries(lens_of(streams_view(streams@)))),
{
    let ghost lens = lens_of(streams_view(streams@));
    proof {
        assert forall|i: int| 0 <= i < lens.len() implies lens[i] >= 0 by {}
        lemma_before_monotone(lens, 0, lens.len() as int);
    }
    let first_dir = p.fat;
    let first_minifat = first_dir + p.dir;
    let first_container = first_minifat + p.minifat;
    let big_start = first_container + p.container;
    let mut v: Vec<u8> = Vec::new();
    push_fill32(&mut v, p.fat, FATSECT);
    let ghost mut e: Seq<int> = fill(p.fat as int, FATSECT as int);
    assert(v@ =~= le32_all(e));
    let ghost before = v@;
    push_chain(&mut v, first_dir, p.dir);
    proof {
        lemma_le32_all_concat(e, chain(first_dir as int, p.dir as int));
        e = e + chain(first_dir as int, p.dir as int);
    }
    push_chain(&mut v, first_minifat, p.minifat);
    proof {
        lemma_le32_all_concat(e, chain(first_minifat as int, p.minifat as int));
        e = e + chain(first_minifat as int, p.minifat as int);
    }
    push_chain(&mut v, first_container, p.container);
    proof {
        lemma_le32_all_concat(e, chain(first_container as int, p.container as int));
        e = e + chain(first_container as int, p.container as int);
    }
    let ghost head = e;
    let mut tb: usize = 0;
    let mut j: usize = 0;
    while j < streams.len()
        invariant
            plan_ok(*p, lens),
            lens == lens_of(streams_view(streams@)),
            lens.len() == streams@.len(),
            forall|i: int| 0 <= i < lens.len() ==> lens[i] >= 0,
            big_start == first_big(lens),
            j <= streams@.len(),
            tb == big_before(lens, j as int),
            tb <= p.total_big,
            p.total_big == big_before(lens, lens.len() as int),
            e == head + big_chains(lens, j as int),
            v@ == le32_all(e),
            big_start + p.total_big <= MAX_OTHER_SECTORS + 109,
        decreases streams@.len() - j,
    {
        let len = streams[j].1.len();
        assert(len == lens[j as int]);
        proof {
            lemma_before_monotone(lens, j as int + 1, lens.len() as int);
        }
        if len >= MINI_STREAM_CUTOFF {
            let extra: usize = if len % 512 != 0 {
                1
            } else {
                0
            };
            let count = len / 512 + extra;
            push_chain(&mut v, big_start + tb, count);
            proof {
                let c = chain((big_start + tb) as int, count as int);
                lemma_le32_all_concat(e, c);
                assert(head + big_chains(lens, j as int + 1) =~= (head + big_chains(lens, j as int)) + c);
                e = e + c;
            }
            tb = tb + count;
        } else {
            proof {
                let c = chain((big_start + tb) as int, 0);
                assert(c =~= Seq::<int>::empty());
                assert(head + big_chains(lens, j as int + 1) =~= head + big_chains(lens, j as int));
            }
        }
        j = j + 1;
    }
    let free = 128 * p.fat - (p.fat + p.dir + p.minifat + p.container + p.total_big);
    push_fill32(&mut v, free, FREESECT);
    proof {
        lemma_le32_all_concat(e, fill(free as int, FREESECT as int));
        assert(e + fill(free as int, FREESECT as int) =~= fat_entries(lens));
    }
    v
}

/// The MiniFAT.
fn minifat_vec(streams: &[(&str, &[u8])], p: &CfbPlan) -> (v: Vec<u8>)
    requires
        plan_ok(*p, lens_of(streams_view(streams@))),
    ensures
        v@ == le32_all(minifat_entries(lens_of(streams_view(streams@)))),
{
    let ghost lens = lens_of(streams_view(streams@));
    proof {
        assert forall|i: int| 0 <= i < lens.len() implies lens[i] >= 0 by {}
        lemma_before_monotone(lens, 0, lens.len() as int);
    }
    let mut v: Vec<u8> = Vec::new();
    let ghost mut e: Seq<int> = Seq::empty();
    assert(v@ =~= le32_all(e));
    let mut tm: usize = 0;
    let mut j: usize = 0;
    while j < streams.len()
        invariant
            plan_ok(*p, lens),
            lens == lens_of(streams_view(streams@)),
            lens.len() == streams@.len(),
            forall|i: int| 0 <= i < lens.len() ==> lens[i] >= 0,
            j <= streams@.len(),
            tm == mini_before(lens, j as int),
            tm <= p.total_mini,
            p.total_mini == mini_before(lens, lens.len() as int),
            p.total_mini <= 8 * MAX_OTHER_SECTORS,
            e == mini_chains(lens, j as int),
            v@ == le32_all(e),
        decreases streams@.len() - j,
    {
        let len = streams[j].1.len();
        assert(len == lens[j as int]);
        proof {
            lemma_before_monotone(lens, j as int + 1, lens.len() as int);
        }
        let count: usize = if len < MINI_STREAM_CUTOFF {
            (len + 63) / 64
        } else {
            0
        };
        push_chain(&mut v, tm, count);
        proof {
            let c = chain(tm as int, count as int);
            lemma_le32_all_concat(e, c);
            e = e + c;
        }
        tm = tm + count;
        j = j + 1;
    }
    let free = 128 * p.minifat - p.total_mini;
    push_fill32(&mut v, free, FREESECT);
    proof {
        lemma_le32_all_concat(e, fill(free as int, FREESECT as int));
    }
    v
}

/// `units` are the ASCII codes of `name`.
spec fn units_of(units: Seq<u8>, name: Seq<char>) -> bool {
    &&& units.len() == name.len()
    &&& forall|i: int| 0 <= i < name.len() ==> units[i] as u32 == name[i] as u32
}

/// One directory entry.
fn dir_entry_vec(
    name: &[u8],
    Ghost(cname): Ghost<Seq<char>>,
    obj_type: u8,
    color: u8,
    left: u32,
    right: u32,
    child: u32,
    start: u32,
    size: u32,
) -> (v: Vec<u8>)
    requires
        units_of(name@, cname),
        name@.len() <= 31,
    ensures
        v@ == dir_entry(
            cname,
            obj_type,
            color,
            left as int,
            right as int,
            child as int,
            start as int,
            size as int,
        ),
{
    let mut v: Vec<u8> = Vec::new();
    let ghost field = name_field(cname);
    let mut i: usize = 0;
    while i < 64
        invariant
            i <= 64,
            units_of(name@, cname),
            name@.len() <= 31,
            field == name_field(cname),
            v@ == field.take(i as int),
        decreases 64 - i,
    {
        let b: u8 = if i % 2 == 0 && i / 2 < name.len() {
            name[i / 2]
        } else {
            0
        };
        v.push(b);
        proof {
            assert(field[i as int] == b);
            assert(v@ =~= field.take(i + 1));
        }
        i = i + 1;
    }
    assert(v@ =~= field);
    let name_len: u16 = if name.len() == 0 {
        0
    } else {
        (2 * (name.len() + 1)) as u16
    };
    push_le16(&mut v, name_len);
    let ghost before = v@;
    v.push(obj_type);
    v.push(color);
    assert(v@ =~= before + seq![obj_type, color]);
    push_le32(&mut v, left);
    push_le32(&mut v, right);
    push_le32(&mut v, child);
    push_zeros(&mut v, 16);
    push_le32(&mut v, 0);
    push_zeros(&mut v, 16);
    push_le32(&mut v, start);
    push_le32(&mut v, size);
    push_le32(&mut v, 0);
    v
}

/// The root entry's name in ASCII.
fn root_name_units() -> (u: Vec<u8>)
    ensures
        units_of(u@, root_name()),
{
    let u: Vec<u8> = vec![82u8, 111u8, 111u8, 116u8, 32u8, 69u8, 110u8, 116u8, 114u8, 121u8];
    assert(units_of(u@, root_name()));
    u
}

/// The directory.
fn dir_vec(streams: &[(&str, &[u8])], units: &Vec<Vec<u8>>, p: &CfbPlan) -> (v: Vec<u8>)
    requires
        plan_ok(*p, lens_of(streams_view(streams@))),
        units@.len() == streams@.len(),
        forall|j: int|
            0 <= j < streams@.len() ==> units_of(#[trigger] units@[j]@, streams@[j].0@),
        all_names_valid(streams_view(streams@)),
    ensures
        v@ == dir_bytes(streams_view(streams@)),
{
    let ghost sv = streams_view(streams@);
    let ghost lens = lens_of(sv);
    proof {
        assert forall|i: int| 0 <= i < lens.len() implies lens[i] >= 0 by {}
        lemma_before_monotone(lens, 0, lens.len() as int);
    }
    let n = streams.len();
    let root_units = root_name_units();
    let child: u32 = if n > 0 {
        1
    } else {
        NOSTREAM
    };
    let first_container = p.fat + p.dir + p.minifat;
    let big_start = first_container + p.container;
    let root_start: u32 = if p.container > 0 {
        first_container as u32
    } else {
        ENDOFCHAIN
    };
    let mut v = dir_entry_vec(
        root_units.as_slice(),
        Ghost(root_name()),
        5,
        1,
        NOSTREAM,
        NOSTREAM,
        child,
        root_start,
        (64 * p.total_mini) as u32,
    );
    assert(v@ == root_entry(lens));
    let ghost head = v@;
    assert(v@ =~= head + stream_entries(sv, 0));
    let mut tm: usize = 0;
    let mut tb: usize = 0;
    let mut j: usize = 0;
    while j < n
        invariant
            n == streams@.len(),
            sv == streams_view(streams@),
            lens == lens_of(sv),
            plan_ok(*p, lens),
            lens.len() == n,
            forall|i: int| 0 <= i < lens.len() ==> lens[i] >= 0,
            units@.len() == n,
            forall|k: int| 0 <= k < n ==> units_of(#[trigger] units@[k]@, streams@[k].0@),
            all_names_valid(sv),
            big_start == first_big(lens),
            big_start + p.total_big <= MAX_OTHER_SECTORS + 109,
            j <= n,
            tm == mini_before(lens, j as int),
            tb == big_before(lens, j as int),
            tm <= p.total_mini,
            tb <= p.total_big,
            p.total_mini == mini_before(lens, n as int),
            p.total_big == big_before(lens, n as int),
            p.total_mini <= 8 * MAX_OTHER_SECTORS,
            v@ == head + stream_entries(sv, j as int),
        decreases n - j,
    {
        let len = streams[j].1.len();
        assert(len == lens[j as int]);
        proof {
            lemma_before_monotone(lens, j as int + 1, n as int);
            assert(valid_name(sv[j as int].0));
        }
        let right: u32 = if j + 1 < n {
            (j + 2) as u32
        } else {
            NOSTREAM
        };
        let start: u32;
        if len < MINI_STREAM_CUTOFF {
            let count = (len + 63) / 64;
            start = if count > 0 {
                tm as u32
            } else {
                ENDOFCHAIN
            };
            tm = tm + count;
        } else {
            let extra: usize = if len % 512 != 0 {
                1
            } else {
                0
            };
            let count = len / 512 + extra;
            start = (big_start + tb) as u32;
            assert(512 * count < 0x1_0000_0000);
            tb = tb + count;
        }
        let entry = dir_entry_vec(
            units[j].as_slice(),
            Ghost(sv[j as int].0),
            2,
            1,
            NOSTREAM,
            right,
            NOSTREAM,
            start,
            len as u32,
        );
        assert(entry@ == stream_entry(sv, j as int));
        push_bytes(&mut v, entry.as_slice());
        j = j + 1;
        assert(v@ =~= head + stream_entries(sv, j as int));
    }
    let unused = 4 * p.dir - n - 1;
    let mut k: usize = 0;
    let ghost mid = v@;
    assert(v@ =~= mid + unused_entries(0));
    let empty: Vec<u8> = Vec::new();
    while k < unused
        invariant
            k <= unused,
            v@ == mid + unused_entries(k as int),
            empty@.len() == 0,
        decreases unused - k,
    {
        let entry = dir_entry_vec(
            empty.as_slice(),
            Ghost(Seq::empty()),
            0,
            0,
            NOSTREAM,
            NOSTREAM,
            NOSTREAM,
            0,
            0,
        );
        push_bytes(&mut v, entry.as_slice());
        k = k + 1;
        assert(v@ =~= mid + unused_entries(k as int));
    }
    v
}

/// A stream's data zero-padded to whole units.
fn padded_vec(data: &[u8], unit: usize) -> (v: Vec<u8>)
    requires
        unit == 64 || unit == 512,
        data@.len() + unit <= usize::MAX,
    ensures
        v@ == padded(data@, unit as int),
{
    let mut v: Vec<u8> = Vec::new();
    push_bytes(&mut v, data);
    assert(v@ =~= data@);
    let rem = data.len() % unit;
    let pad: usize = if rem == 0 {
        0
    } else {
        unit - rem
    };
    assert(unit * ceil_div(data@.len() as int, unit as int) - data@.len() == pad) by {
        let l = data@.len() as int;
        let u = unit as int;
        assert(l == u * (l / u) + l % u) by (nonlinear_arith)
            requires
                u > 0,
        ;
        if l % u == 0 {
            assert((l + u - 1) / u == l / u) by (nonlinear_arith)
                requires
                    u > 0,
                    l == u * (l / u),
            ;
        } else {
            assert((l + u - 1) / u == l / u + 1) by (nonlinear_arith)
                requires
                    u > 0,
                    l == u * (l / u) + l % u,
                    0 < l % u < u,
            ;
        }
        assert(u * (l / u + 1) == u * (l / u) + u) by (nonlinear_arith);
    }
    push_zeros(&mut v, pad);
    v
}

/// The mini stream container.
fn container_vec(streams: &[(&str, &[u8])], p: &CfbPlan) -> (v: Vec<u8>)
    requires
        plan_ok(*p, lens_of(streams_view(streams@))),
    ensures
        v@ == container_bytes(streams_view(streams@)),
{
    let ghost sv = streams_view(streams@);
    let mut v: Vec<u8> = Vec::new();
    assert(v@ =~= small_data(sv, 0));
    let mut j: usize = 0;
    while j < streams.len()
        invariant
            sv == streams_view(streams@),
            j <= streams@.len(),
            v@ == small_data(sv, j as int),
        decreases streams@.len() - j,
    {
        let data = streams[j].1;
        assert(data@ == sv[j as int].1);
        if data.len() < MINI_STREAM_CUTOFF {
            let piece = padded_vec(data, MINI_SECTOR_SIZE);
            push_bytes(&mut v, piece.as_slice());
        } else {
            assert(v@ =~= v@ + Seq::<u8>::empty());
        }
        j = j + 1;
    }
    let pad = 512 * p.container - 64 * p.total_mini;
    push_zeros(&mut v, pad);
    v
}

/// The sectors of the large streams.
fn big_vec(streams: &[(&str, &[u8])], p: &CfbPlan) -> (v: Vec<u8>)
    requires
        plan_ok(*p, lens_of(streams_view(streams@))),
    ensures
        v@ == big_data(streams_view(streams@), streams@.len() as int),
{
    let ghost sv = streams_view(streams@);
    let ghost lens = lens_of(sv);
    proof {
        assert forall|i: int| 0 <= i < lens.len() implies lens[i] >= 0 by {}
    }
    let mut v: Vec<u8> = Vec::new();
    assert(v@ =~= big_data(sv, 0));
    let mut j: usize = 0;
    while j < streams.len()
        invariant
            sv == streams_view(streams@),
            lens == lens_of(sv),
            plan_ok(*p, lens),
            forall|i: int| 0 <= i < lens.len() ==> lens[i] >= 0,
            j <= streams@.len(),
            v@ == big_data(sv, j as int),
        decreases streams@.len() - j,
    {
        let data = streams[j].1;
        assert(data@ == sv[j as int].1);
        if data.len() >= MINI_STREAM_CUTOFF {
            proof {
                lemma_before_monotone(lens, j as int + 1, lens.len() as int);
                lemma_before_monotone(lens, 0, j as int);
                assert(big_before(lens, j as int + 1) == big_before(lens, j as int) + big_sectors(
                    lens[j as int],
                ));
                assert(big_sectors(lens[j as int]) <= MAX_OTHER_SECTORS);
                let l = lens[j as int];
                assert(l <= 512 * ceil_div(l, 512)) by (nonlinear_arith)
                    requires
                        l >= 0,
                ;
            }
            let piece = padded_vec(data, SECTOR_SIZE);
            push_bytes(&mut v, piece.as_slice());
        } else {
            assert(v@ =~= v@ + Seq::<u8>::empty());
        }
        j = j + 1;
    }
    v
}

pub const NAME_ERROR: &'static str = "CFB 스트림 이름이 잘못됐다";

pub const ORDER_ERROR: &'static str = "CFB 스트림 이름 순서가 잘못됐다";

pub const SIZE_ERROR: &'static str = "CFB 가 너무 크다";

/// Why the streams cannot be stored, checked in this order: a name is not
/// valid, the names are not in directory order, the file would need more
/// than 109 FAT sectors.
#[verifier::opaque]
pub open spec fn cfb_error(sv: Seq<(Seq<char>, Seq<u8>)>) -> Option<Seq<char>> {
    if !all_names_valid(sv) {
        Some(NAME_ERROR@)
    } else if !names_in_order(sv) {
        Some(ORDER_ERROR@)
    } else if fat_sectors(lens_of(sv)) > HEADER_DIFAT_SLOTS {
        Some(SIZE_ERROR@)
    } else {
        None
    }
}

fn error_text(text: &str) -> (s: String)
    ensures
        s@ == text@,
{
    let mut s = String::new();
    s.append(text);
    assert(s@ =~= text@);
    s
}

/// A compound file holding the given streams, in the given order, under the
/// root storage.
pub fn build_cfb(streams: &[(&str, &[u8])]) -> (r: Result<Vec<u8>, String>)
    ensures
        match cfb_error(streams_view(streams@)) {
            Some(m) => r matches Err(e) && e@ == m,
            None => r matches Ok(b) && b@ == cfb_image(streams_view(streams@)),
        },
{
    proof {
        reveal(cfb_error);
        reveal(cfb_image);
    }
    let ghost sv = streams_view(streams@);
    let n = streams.len();
    let mut units: Vec<Vec<u8>> = Vec::new();
    let mut j: usize = 0;
    while j < n
        invariant
            n == streams@.len(),
            sv == streams_view(streams@),
            j <= n,
            units@.len() == j,
            forall|k: int| 0 <= k < j ==> units_of(#[trigger] units@[k]@, streams@[k].0@),
            forall|k: int| 0 <= k < j ==> valid_name(#[trigger] sv[k].0),
        decreases n - j,
    {
        match name_units(streams[j].0) {
            Some(u) => {
                units.push(u);
            },
            None => {
                assert(!valid_name(sv[j as int].0));
                proof {
                    reveal(cfb_error);
                }
                return Err(error_text(NAME_ERROR));
            },
        }
        j = j + 1;
    }
    assert(all_names_valid(sv));
    let mut j: usize = 0;
    while j + 1 < n
        invariant
            n == streams@.len(),
            sv == streams_view(streams@),
            units@.len() == n,
            forall|k: int| 0 <= k < n ==> units_of(#[trigger] units@[k]@, streams@[k].0@),
            all_names_valid(sv),
            j == 0 || j < n,
            forall|k: int| 0 <= k < j ==> name_less(#[trigger] sv[k].0, sv[k + 1].0),
        decreases n - j,
    {
        let less = units_less(
            units[j].as_slice(),
            units[j + 1].as_slice(),
            Ghost(sv[j as int].0),
            Ghost(sv[j as int + 1].0),
        );
        if !less {
            proof {
                reveal(cfb_error);
            }
            return Err(error_text(ORDER_ERROR));
        }
        j = j + 1;
    }
    assert(names_in_order(sv));
    let plan = match plan_cfb(streams) {
        Some(p) => p,
        None => {
            return Err(error_text(SIZE_ERROR));
        },
    };
    let mut out = header_vec(&plan, Ghost(lens_of(sv)));
    let fat = fat_vec(streams, &plan);
    push_bytes(&mut out, fat.as_slice());
    let dir = dir_vec(streams, &units, &plan);
    push_bytes(&mut out, dir.as_slice());
    let minifat = minifat_vec(streams, &plan);
    push_bytes(&mut out, minifat.as_slice());
    let container = container_vec(streams, &plan);
    push_bytes(&mut out, container.as_slice());
    let big = big_vec(streams, &plan);
    push_bytes(&mut out, big.as_slice());
    Ok(out)
}

proof fn lemma_le32_all_len(s: Seq<int>)
    ensures
        le32_all(s).len() == 4 * s.len(),
    decreases s.len(),
{
    if s.len() > 0 {
        lemma_le32_all_len(s.drop_last());
    }
}

proof fn lemma_chains_len(lens: Seq<int>, j: int)
    requires
        0 <= j <= lens.len(),
        forall|i: int| 0 <= i < lens.len() ==> lens[i] >= 0,
    ensures
        big_chains(lens, j).len() == big_before(lens, j),
        mini_chains(lens, j).len() == mini_before(lens, j),
    decreases j,
{
    if j > 0 {
        lemma_chains_len(lens, j - 1);
        lemma_before_nonneg(lens, j - 1);
    }
}

proof fn lemma_entry_len(
    name: Seq<char>,
    obj_type: u8,
    color: u8,
    left: int,
    right: int,
    child: int,
    start: int,
    size: int,
)
    ensures
        dir_entry(name, obj_type, color, left, right, child, start, size).len() == 128,
{
}

proof fn lemma_entries_len(sv: Seq<(Seq<char>, Seq<u8>)>, j: int, k: int)
    requires
        0 <= j <= sv.len(),
        k >= 0,
    ensures
        stream_entries(sv, j).len() == 128 * j,
        unused_entries(k).len() == 128 * k,
    decreases j + k,
{
    if j > 0 {
        lemma_entries_len(sv, j - 1, k);
    }
    if k > 0 {
        lemma_entries_len(sv, j, k - 1);
    }
}

proof fn lemma_padded_len(data: Seq<u8>, unit: int)
    requires
        unit == 64 || unit == 512,
    ensures
        padded(data, unit).len() == unit * ceil_div(data.len() as int, unit),
        padded(data, unit).subrange(0, data.len() as int) == data,
{
    let l = data.len() as int;
    assert(l <= unit * ceil_div(l, unit)) by (nonlinear_arith)
        requires
            l >= 0,
            unit > 0,
    ;
    assert(padded(data, unit).subrange(0, l) =~= data);
}

/// The data of the first `j` streams, and its place in that of the first `k`.
proof fn lemma_data_prefix(sv: Seq<(Seq<char>, Seq<u8>)>, j: int, k: int)
    requires
        0 <= j <= k <= sv.len(),
    ensures
        small_data(sv, j).len() == MINI_SECTOR_SIZE * mini_before(lens_of(sv), j),
        big_data(sv, j).len() == SECTOR_SIZE * big_before(lens_of(sv), j),
        small_data(sv, k).subrange(0, small_data(sv, j).len() as int) == small_data(sv, j),
        big_data(sv, k).subrange(0, big_data(sv, j).len() as int) == big_data(sv, j),
    decreases k,
{
    let lens = lens_of(sv);
    assert forall|i: int| 0 <= i < lens.len() implies lens[i] >= 0 by {}
    if k > j {
        lemma_data_prefix(sv, j, k - 1);
        lemma_data_prefix(sv, k - 1, k - 1);
        lemma_before_monotone(lens, j, k - 1);
        let a = small_data(sv, k - 1);
        let b = big_data(sv, k - 1);
        assert(small_data(sv, k).subrange(0, a.len() as int) =~= a);
        assert(big_data(sv, k).subrange(0, b.len() as int) =~= b);
        assert(small_data(sv, k).subrange(0, small_data(sv, j).len() as int) =~= a.subrange(
            0,
            small_data(sv, j).len() as int,
        ));
        assert(big_data(sv, k).subrange(0, big_data(sv, j).len() as int) =~= b.subrange(
            0,
            big_data(sv, j).len() as int,
        ));
    } else {
        assert(small_data(sv, k).subrange(0, small_data(sv, j).len() as int) =~= small_data(sv, j));
        assert(big_data(sv, k).subrange(0, big_data(sv, j).len() as int) =~= big_data(sv, j));
        if j > 0 {
            lemma_data_prefix(sv, j - 1, j - 1);
            let d = sv[j - 1].1;
            assert(lens[j - 1] == d.len());
            if is_small(d.len() as int) {
                lemma_padded_len(d, 64);
            } else {
                lemma_padded_len(d, 512);
            }
        }
    }
}

/// Where stream `j`'s bytes sit in the file: in the mini stream container
/// at its first mini sector, or at its first sector.
pub open spec fn stream_offset(sv: Seq<(Seq<char>, Seq<u8>)>, j: int) -> int {
    let lens = lens_of(sv);
    if is_small(lens[j]) {
        SECTOR_SIZE * (1 + first_container(lens)) + MINI_SECTOR_SIZE * mini_before(lens, j)
    } else {
        SECTOR_SIZE * (1 + first_big(lens) + big_before(lens, j))
    }
}

/// Every compound file begins with the compound file signature.
pub proof fn lemma_cfb_signature(sv: Seq<(Seq<char>, Seq<u8>)>)
    ensures
        cfb_image(sv).len() >= 8,
        cfb_image(sv).subrange(0, 8) == magic(),
{
    reveal(cfb_image);
    let lens = lens_of(sv);
    let h = header_bytes(lens);
    let rest = le32_all(fat_entries(lens)) + dir_bytes(sv) + le32_all(minifat_entries(lens))
        + container_bytes(sv) + big_data(sv, sv.len() as int);
    assert(h.len() >= 8);
    assert(cfb_image(sv) =~= h + rest);
    assert(h.subrange(0, 8) =~= magic());
    assert(cfb_image(sv).subrange(0, 8) =~= magic());
}

/// The file carries every stream's bytes unchanged, at the place its
/// directory entry's first sector points to: a small stream at its first
/// mini sector within the mini stream container, a large one at its first
/// sector (sector `k` starting at byte `512 * (k + 1)`).
#[verifier::spinoff_prover]
#[verifier::rlimit(40)]
pub proof fn lemma_cfb_stream_data(sv: Seq<(Seq<char>, Seq<u8>)>, j: int)
    requires
        cfb_error(sv) is None,
        0 <= j < sv.len(),
    ensures
        stream_offset(sv, j) + sv[j].1.len() <= cfb_image(sv).len(),
        cfb_image(sv).subrange(stream_offset(sv, j), stream_offset(sv, j) + sv[j].1.len())
            == sv[j].1,
        sv[j].1.len() > 0 ==> stream_start(lens_of(sv), j) == if is_small(sv[j].1.len() as int) {
            mini_before(lens_of(sv), j)
        } else {
            first_big(lens_of(sv)) + big_before(lens_of(sv), j)
        },
{
    reveal(cfb_error);
    reveal(cfb_image);
    let lens = lens_of(sv);
    let n = sv.len() as int;
    assert forall|i: int| 0 <= i < lens.len() implies lens[i] >= 0 by {}
    lemma_before_monotone(lens, 0, n);
    lemma_chains_len(lens, n);
    let h = header_bytes(lens);
    let fat = le32_all(fat_entries(lens));
    let dir = dir_bytes(sv);
    let mf = le32_all(minifat_entries(lens));
    let cont = container_bytes(sv);
    let big = big_data(sv, n);
    lemma_le32_all_len(header_difat(fat_sectors(lens)));
    assert(h.len() == 512);
    lemma_le32_all_len(fat_entries(lens));
    assert(fat.len() == 512 * fat_sectors(lens));
    lemma_entry_len(root_name(), 5, 1, 0, 0, 0, 0, 0);
    lemma_entries_len(sv, n, 4 * dir_sectors(lens) - n - 1);
    assert(root_entry(lens).len() == 128);
    assert(dir.len() == 512 * dir_sectors(lens));
    lemma_le32_all_len(minifat_entries(lens));
    assert(mf.len() == 512 * minifat_sectors(lens));
    lemma_data_prefix(sv, j, n);
    lemma_data_prefix(sv, j + 1, n);
    lemma_before_monotone(lens, j + 1, n);
    lemma_before_monotone(lens, j, j + 1);
    lemma_data_prefix(sv, j, j + 1);
    lemma_data_prefix(sv, n, n);
    let tm = total_mini(lens);
    assert(64 * tm <= 512 * ceil_div(tm, 8)) by (nonlinear_arith)
        requires
            tm >= 0,
    ;
    assert(cont.len() == 512 * container_sectors(lens));
    let img = cfb_image(sv);
    let before_cont = h + fat + dir + mf;
    assert(before_cont.len() == 512 * (1 + first_container(lens)));
    let d = sv[j].1;
    assert(lens[j] == d.len());
    if is_small(d.len() as int) {
        lemma_padded_len(d, 64);
        let sd = small_data(sv, j + 1);
        let pre = small_data(sv, j);
        let off = pre.len() as int;
        assert(sd =~= pre + padded(d, 64));
        assert(sd.subrange(off, off + d.len()) =~= d);
        let all = small_data(sv, n);
        assert(all.subrange(0, sd.len() as int) == sd);
        assert forall|i: int| 0 <= i < d.len() implies all[off + i] == d[i] by {
            assert(all.subrange(0, sd.len() as int)[off + i] == all[off + i]);
            assert(sd.subrange(off, off + d.len())[i] == sd[off + i]);
        }
        assert(all.subrange(off, off + d.len()) =~= d);
        assert(cont.subrange(off, off + d.len()) =~= d);
        let o = before_cont.len() + off;
        assert(img =~= before_cont + cont + big);
        assert(img.subrange(o, o + d.len()) =~= cont.subrange(off, off + d.len()));
    } else {
        lemma_padded_len(d, 512);
        let bd = big_data(sv, j + 1);
        let pre = big_data(sv, j);
        let off = pre.len() as int;
        assert(bd =~= pre + padded(d, 512));
        assert(bd.subrange(off, off + d.len()) =~= d);
        assert(big.subrange(0, bd.len() as int) == bd);
        assert forall|i: int| 0 <= i < d.len() implies big[off + i] == d[i] by {
            assert(big.subrange(0, bd.len() as int)[off + i] == big[off + i]);
            assert(bd.subrange(off, off + d.len())[i] == bd[off + i]);
        }
        assert(big.subrange(off, off + d.len()) =~= d);
        let o = before_cont.len() + cont.len() + off;
        assert(img =~= before_cont + cont + big);
        assert(img.subrange(o, o + d.len()) =~= big.subrange(off, off + d.len()));
    }
}

proof fn lemma_chains_prefix(lens: Seq<int>, j: int, k: int)
    requires
        0 <= j <= k <= lens.len(),
        forall|i: int| 0 <= i < lens.len() ==> lens[i] >= 0,
    ensures
        big_chains(lens, k).subrange(0, big_chains(lens, j).len() as int) == big_chains(lens, j),
        mini_chains(lens, k).subrange(0, mini_chains(lens, j).len() as int) == mini_chains(
            lens,
            j,
        ),
    decreases k,
{
    lemma_chains_len(lens, j);
    lemma_chains_len(lens, k);
    lemma_before_monotone(lens, j, k);
    if k > j {
        lemma_chains_prefix(lens, j, k - 1);
        lemma_chains_len(lens, k - 1);
        lemma_before_monotone(lens, j, k - 1);
        let b = big_chains(lens, k - 1);
        let m = mini_chains(lens, k - 1);
        let bj = big_chains(lens, j).len() as int;
        let mj = mini_chains(lens, j).len() as int;
        assert(big_chains(lens, k).subrange(0, bj) =~= b.subrange(0, bj));
        assert(mini_chains(lens, k).subrange(0, mj) =~= m.subrange(0, mj));
    } else {
        assert(big_chains(lens, k).subrange(0, big_chains(lens, j).len() as int) =~= big_chains(
            lens,
            j,
        ));
        assert(mini_chains(lens, k).subrange(0, mini_chains(lens, j).len() as int) =~= mini_chains(
            lens,
            j,
        ));
    }
}

/// The FAT links each large stream's sectors in order and ends the chain
/// at its last sector; the MiniFAT does the same for each small stream's
/// mini sectors.
pub proof fn lemma_cfb_chains(sv: Seq<(Seq<char>, Seq<u8>)>, j: int, i: int)
    requires
        cfb_error(sv) is None,
        0 <= j < sv.len(),
    ensures
        ({
            let lens = lens_of(sv);
            let len = sv[j].1.len() as int;
            &&& !is_small(len) && 0 <= i < big_sectors(len) ==> {
                let k = first_big(lens) + big_before(lens, j) + i;
                fat_entries(lens)[k] == if i + 1 < big_sectors(len) {
                    k + 1
                } else {
                    ENDOFCHAIN as int
                }
            }
            &&& is_small(len) && 0 <= i < mini_sectors(len) ==> {
                let k = mini_before(lens, j) + i;
                minifat_entries(lens)[k] == if i + 1 < mini_sectors(len) {
                    k + 1
                } else {
                    ENDOFCHAIN as int
                }
            }
        }),
{
    reveal(cfb_error);
    let lens = lens_of(sv);
    let n = sv.len() as int;
    assert forall|t: int| 0 <= t < lens.len() implies lens[t] >= 0 by {}
    lemma_chains_len(lens, n);
    lemma_chains_len(lens, j);
    lemma_chains_len(lens, j + 1);
    lemma_chains_prefix(lens, j + 1, n);
    lemma_before_monotone(lens, j + 1, n);
    lemma_before_monotone(lens, 0, j);
    let len = sv[j].1.len() as int;
    assert(lens[j] == len);
    if !is_small(len) && 0 <= i < big_sectors(len) {
        let bc = big_chains(lens, n);
        let b1 = big_chains(lens, j + 1);
        let t = big_before(lens, j) + i;
        assert(b1[t] == chain(first_big(lens) + big_before(lens, j), big_sectors(len))[i]);
        assert(bc.subrange(0, b1.len() as int)[t] == bc[t]);
        let head = fill(fat_sectors(lens), FATSECT as int) + chain(first_dir(lens), dir_sectors(lens))
            + chain(first_minifat(lens), minifat_sectors(lens)) + chain(
            first_container(lens),
            container_sectors(lens),
        );
        assert(head.len() == first_big(lens));
        let fe = fat_entries(lens);
        assert(fe == head + bc + fill(128 * fat_sectors(lens) - total_sectors(lens), FREESECT as int));
        assert(fe[first_big(lens) + t] == bc[t]);
    }
    if is_small(len) && 0 <= i < mini_sectors(len) {
        let mc = mini_chains(lens, n);
        let m1 = mini_chains(lens, j + 1);
        let t = mini_before(lens, j) + i;
        assert(m1[t] == chain(mini_before(lens, j), mini_sectors(len))[i]);
        assert(mc.subrange(0, m1.len() as int)[t] == mc[t]);
        let me = minifat_entries(lens);
        assert(me[t] == mc[t]);
    }
}

proof fn lemma_entry_fields(
    name: Seq<char>,
    obj_type: u8,
    color: u8,
    left: int,
    right: int,
    child: int,
    start: int,
    size: int,
)
    requires
        0 <= left < 0x1_0000_0000,
        0 <= right < 0x1_0000_0000,
        0 <= child < 0x1_0000_0000,
        0 <= start < 0x1_0000_0000,
        0 <= size < 0x1_0000_0000,
        0 <= name_len_field(name) < 0x10000,
    ensures
        ({
            let e = dir_entry(name, obj_type, color, left, right, child, start, size);
            &&& e.len() == 128
            &&& read_le16(e, 64) == name_len_field(name)
            &&& e[66] == obj_type
            &&& read_le32(e, 68) == left
            &&& read_le32(e, 72) == right
            &&& read_le32(e, 76) == child
            &&& read_le32(e, 116) == start
            &&& read_le32(e, 120) == size
            &&& read_le32(e, 124) == 0
        }),
{
    lemma_read_le16(name_len_field(name));
    lemma_read_le32(left);
    lemma_read_le32(right);
    lemma_read_le32(child);
    lemma_read_le32(start);
    lemma_read_le32(size);
    lemma_read_le32(0);
}

proof fn lemma_entries_prefix(sv: Seq<(Seq<char>, Seq<u8>)>, j: int, k: int)
    requires
        0 <= j < k <= sv.len(),
    ensures
        stream_entries(sv, k).subrange(128 * j, 128 * j + 128) == stream_entries(sv, j + 1).subrange(
            128 * j,
            128 * j + 128,
        ),
        stream_entries(sv, j + 1).subrange(128 * j, 128 * j + 128) == stream_entry(sv, j),
    decreases k,
{
    lemma_entries_len(sv, k, 0);
    if j < k {
        lemma_entries_len(sv, j, 0);
        lemma_entries_len(sv, j + 1, 0);
        assert(stream_entries(sv, j + 1).subrange(128 * j, 128 * j + 128) =~= stream_entry(sv, j));
        if j + 1 < k {
            lemma_entries_prefix(sv, j, k - 1);
            lemma_entries_len(sv, k - 1, 0);
            assert(stream_entries(sv, k).subrange(128 * j, 128 * j + 128) =~= stream_entries(
                sv,
                k - 1,
            ).subrange(128 * j, 128 * j + 128));
        }
    }
}

proof fn lemma_dir_slice(sv: Seq<(Seq<char>, Seq<u8>)>, j: int, t: int)
    requires
        0 <= j < sv.len(),
        0 <= t < 128,
        4 * dir_sectors(lens_of(sv)) - sv.len() - 1 >= 0,
    ensures
        dir_bytes(sv)[128 * (j + 1) + t] == stream_entry(sv, j)[t],
{
    let lens = lens_of(sv);
    let n = sv.len() as int;
    lemma_entries_prefix(sv, j, n);
    lemma_entries_len(sv, n, 4 * dir_sectors(lens) - n - 1);
    lemma_entry_len(root_name(), 5, 1, 0, 0, 0, 0, 0);
    let se = stream_entries(sv, n);
    assert(root_entry(lens).len() == 128);
    assert(se.subrange(128 * j, 128 * j + 128)[t] == se[128 * j + t]);
}

/// Directory entry `j + 1` describes stream `j`: a stream object with the
/// stream's name length, the next stream as its right sibling, its first
/// sector (or mini sector), and its size.
pub proof fn lemma_cfb_dir_entry(sv: Seq<(Seq<char>, Seq<u8>)>, j: int)
    requires
        cfb_error(sv) is None,
        0 <= j < sv.len(),
    ensures
        ({
            let dir = dir_bytes(sv);
            let at = 128 * (j + 1);
            &&& read_le16(dir, at + 64) == 2 * (sv[j].0.len() + 1)
            &&& dir[at + 66] == 2
            &&& read_le32(dir, at + 72) == if j + 1 < sv.len() {
                j + 2
            } else {
                NOSTREAM as int
            }
            &&& read_le32(dir, at + 116) == stream_start(lens_of(sv), j)
            &&& read_le32(dir, at + 120) == sv[j].1.len()
        }),
{
    let lens = lens_of(sv);
    let n = sv.len() as int;
    let len = sv[j].1.len() as int;
    assert(valid_name(sv[j].0) && fat_sectors(lens) <= 109) by {
        reveal(cfb_error);
    }
    assert forall|t: int| 0 <= t < lens.len() implies lens[t] >= 0 by {}
    lemma_before_monotone(lens, 0, n);
    lemma_before_monotone(lens, j + 1, n);
    lemma_before_monotone(lens, 0, j);
    assert(lens[j] == len);
    assert(big_before(lens, j + 1) == big_before(lens, j) + big_sectors(len));
    assert(len < 0x1_0000_0000) by {
        if !is_small(len) {
            assert(len <= 512 * ceil_div(len, 512)) by (nonlinear_arith)
                requires
                    len >= 0,
            ;
        }
    }
    let right = if j + 1 < n {
        j + 2
    } else {
        NOSTREAM as int
    };
    lemma_entry_fields(
        sv[j].0,
        2,
        1,
        NOSTREAM as int,
        right,
        NOSTREAM as int,
        stream_start(lens, j),
        len,
    );
    let e = stream_entry(sv, j);
    let dir = dir_bytes(sv);
    let at = 128 * (j + 1);
    lemma_dir_slice(sv, j, 64);
    lemma_dir_slice(sv, j, 65);
    lemma_dir_slice(sv, j, 66);
    lemma_dir_slice(sv, j, 72);
    lemma_dir_slice(sv, j, 73);
    lemma_dir_slice(sv, j, 74);
    lemma_dir_slice(sv, j, 75);
    lemma_dir_slice(sv, j, 116);
    lemma_dir_slice(sv, j, 117);
    lemma_dir_slice(sv, j, 118);
    lemma_dir_slice(sv, j, 119);
    lemma_dir_slice(sv, j, 120);
    lemma_dir_slice(sv, j, 121);
    lemma_dir_slice(sv, j, 122);
    lemma_dir_slice(sv, j, 123);
}

/// The header names the sector size (2^9), the mini sector size (2^6),
/// the FAT sectors (count, and each in the DIFAT slots), the first
/// directory sector, the mini stream cutoff and the MiniFAT; the root entry
/// (directory entry 0) has the first stream as its child and the mini stream
/// container as its stream.
pub proof fn lemma_cfb_header(sv: Seq<(Seq<char>, Seq<u8>)>, slot: int)
    requires
        cfb_error(sv) is None,
        0 <= slot < fat_sectors(lens_of(sv)),
    ensures
        ({
            let lens = lens_of(sv);
            let h = header_bytes(lens);
            let root = root_entry(lens);
            &&& h.len() == 512
            &&& read_le16(h, 30) == 9
            &&& read_le16(h, 32) == 6
            &&& read_le32(h, 44) == fat_sectors(lens)
            &&& read_le32(h, 48) == first_dir(lens)
            &&& read_le32(h, 56) == MINI_STREAM_CUTOFF
            &&& read_le32(h, 60) == if minifat_sectors(lens) > 0 {
                first_minifat(lens)
            } else {
                ENDOFCHAIN as int
            }
            &&& read_le32(h, 64) == minifat_sectors(lens)
            &&& read_le32(h, 76 + 4 * slot) == slot
            &&& read_le32(root, 76) == if sv.len() > 0 {
                1
            } else {
                NOSTREAM as int
            }
            &&& read_le32(root, 116) == if container_sectors(lens) > 0 {
                first_container(lens)
            } else {
                ENDOFCHAIN as int
            }
            &&& read_le32(root, 120) == MINI_SECTOR_SIZE * total_mini(lens)
        }),
{
    reveal(cfb_error);
    let lens = lens_of(sv);
    let n = sv.len() as int;
    assert forall|t: int| 0 <= t < lens.len() implies lens[t] >= 0 by {}
    lemma_before_monotone(lens, 0, n);
    let f = fat_sectors(lens);
    let mf = minifat_sectors(lens);
    lemma_read_le16(9);
    lemma_read_le16(6);
    lemma_read_le32(f);
    lemma_read_le32(first_dir(lens));
    lemma_read_le32(MINI_STREAM_CUTOFF as int);
    lemma_read_le32(
        if mf > 0 {
            first_minifat(lens)
        } else {
            ENDOFCHAIN as int
        },
    );
    lemma_read_le32(mf);
    let difat = header_difat(f);
    lemma_le32_all_len(difat);
    lemma_le32_all_slot(difat, slot);
    lemma_read_le32(slot);
    let h = header_bytes(lens);
    let pre = magic() + fill(16, 0u8) + le16(0x003E) + le16(0x0003) + le16(0xFFFE) + le16(9) + le16(
        6,
    ) + fill(6, 0u8) + le32(0) + le32(f) + le32(first_dir(lens)) + le32(0) + le32(
        MINI_STREAM_CUTOFF as int,
    ) + le32(
        if mf > 0 {
            first_minifat(lens)
        } else {
            ENDOFCHAIN as int
        },
    ) + le32(mf) + le32(ENDOFCHAIN as int) + le32(0);
    assert(pre.len() == 76);
    assert(h == pre + le32_all(difat));
    assert(h[76 + 4 * slot] == le32_all(difat)[4 * slot]);
    assert(h[77 + 4 * slot] == le32_all(difat)[4 * slot + 1]);
    assert(h[78 + 4 * slot] == le32_all(difat)[4 * slot + 2]);
    assert(h[79 + 4 * slot] == le32_all(difat)[4 * slot + 3]);
    lemma_entry_fields(
        root_name(),
        5,
        1,
        NOSTREAM as int,
        NOSTREAM as int,
        if n > 0 {
            1
        } else {
            NOSTREAM as int
        },
        if container_sectors(lens) > 0 {
            first_container(lens)
        } else {
            ENDOFCHAIN as int
        },
        MINI_SECTOR_SIZE * total_mini(lens),
    );
}

/// Slot `i` of an encoded sequence holds the encoding of its `i`-th number.
proof fn lemma_le32_all_slot(s: Seq<int>, i: int)
    requires
        0 <= i < s.len(),
    ensures
        le32_all(s).subrange(4 * i, 4 * i + 4) == le32(s[i]),
    decreases s.len(),
{
    lemma_le32_all_len(s);
    lemma_le32_all_len(s.drop_last());
    let p = le32_all(s.drop_last());
    if i == s.len() - 1 {
        assert(le32_all(s).subrange(4 * i, 4 * i + 4) =~= le32(s[i]));
    } else {
        lemma_le32_all_slot(s.drop_last(), i);
        assert(le32_all(s).subrange(4 * i, 4 * i + 4) =~= p.subrange(4 * i, 4 * i + 4));
    }
}

} // verus!
