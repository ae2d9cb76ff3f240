//! Compound files, which Outlook keeps a message in: which of them the parser can
//! be handed. It trusts some of what a file says about itself, and a file that
//! says otherwise would stop it with a panic.
//!
//! A compound file is a header and then sectors of one size. A table says for each
//! sector which one follows it, so that a list of sectors is found from its first
//! one. The directory is such a list, and so is the content of a large stream.
//! Small streams share one, in smaller sectors that have a table of their own.

use vstd::prelude::*;

use crate::text;

verus! {

/// The length of the header.
pub const HEADER: usize = 512;

/// The entry of a table that ends a list.
pub const END: u32 = 0xffff_fffe;

/// The entry of a table that belongs to no list.
pub const FREE: u32 = 0xffff_ffff;

/// The number of sectors of the table that the header has room for.
pub const HEADER_IDS: usize = 109;

/// The largest number of sectors that the table may have.
pub const TABLE_MAX: u64 = 67_108_864;

/// The length of an entry of the directory.
pub const SLOT: u64 = 128;

/// How the name of a stream begins that holds a property.
pub const PROPERTY: &'static str = "__substg1.0";

/// The name of the stream that numbers the properties which have a name.
pub const NAMED: &'static str = "__substg1.0_00030102";

/// Two bytes as a number, the low one first.
pub open spec fn half(data: Seq<u8>, at: int) -> u16 {
    (data[at] + data[at + 1] * 256) as u16
}

/// Four bytes as a number, the low one first.
pub open spec fn word(data: Seq<u8>, at: int) -> u32 {
    (data[at] + data[at + 1] * 256 + data[at + 2] * 65536 + data[at + 3] * 16777216) as u32
}

/// Two to the given power.
pub open spec fn doubled(n: nat) -> int
    decreases n,
{
    if n == 0 {
        1
    } else {
        2 * doubled((n - 1) as nat)
    }
}

/// The header is one that the parser goes beyond. It gives an error for any other.
pub open spec fn has_header(data: Seq<u8>) -> bool {
    &&& data.len() >= HEADER
    &&& data[0] == 0xd0 && data[1] == 0xcf && data[2] == 0x11 && data[3] == 0xe0
    &&& data[4] == 0xa1 && data[5] == 0xb1 && data[6] == 0x1a && data[7] == 0xe1
    &&& data[28] == 0xfe && data[29] == 0xff
    &&& half(data, 30) < 16
    &&& half(data, 32) < 16
    &&& word(data, 56) >= 4096
}

/// The size of a sector.
pub open spec fn sector_size(data: Seq<u8>) -> int {
    doubled(half(data, 30) as nat)
}

/// The size of a sector of the small streams.
pub open spec fn small_size(data: Seq<u8>) -> int {
    doubled(half(data, 32) as nat)
}

/// Where byte `p` of a list of sectors stands in the file, if it is there.
pub open spec fn position(data: Seq<u8>, size: int, sectors: Seq<u32>, p: int) -> Option<int> {
    let k = p / size;
    if k < sectors.len() && HEADER + sectors[k] * size + size <= data.len() {
        Some(HEADER + sectors[k] * size + p % size)
    } else {
        None
    }
}

/// Entry `i` of a table, if it is there.
pub open spec fn entry(data: Seq<u8>, size: int, table: Seq<u32>, i: int) -> Option<u32> {
    match position(data, size, table, 4 * i) {
        Some(at) => Some(word(data, at)),
        None => None,
    }
}

/// The list that begins with `first`, by a table. Besides `END`, `stop` ends it
/// too. No list is longer than `most`.
pub open spec fn list(
    data: Seq<u8>,
    size: int,
    table: Seq<u32>,
    first: u32,
    stop: u32,
    most: nat,
) -> Seq<u32>
    decreases most,
{
    if most == 0 || first == END || first == stop {
        Seq::empty()
    } else {
        match entry(data, size, table, first as int) {
            Some(next) => seq![first] + list(data, size, table, next, stop, (most - 1) as nat),
            None => Seq::empty(),
        }
    }
}

/// The list that begins with `first`: it has at most one entry more than its
/// table. A sector without room for an entry makes no table.
pub open spec fn list_of(
    data: Seq<u8>,
    size: int,
    table: Seq<u32>,
    first: u32,
    stop: u32,
) -> Seq<u32> {
    if size < 4 {
        Seq::empty()
    } else {
        list(data, size, table, first, stop, (table.len() * (size / 4) + 1) as nat)
    }
}

/// The numbers at `at`, up to the first that is free, and at most `most`.
pub open spec fn ids_at(data: Seq<u8>, at: int, most: nat) -> Seq<u32>
    decreases most,
{
    if most == 0 || word(data, at) == FREE {
        Seq::empty()
    } else {
        seq![word(data, at)] + ids_at(data, at + 4, (most - 1) as nat)
    }
}

/// The number of sectors of the table that the file announces.
pub open spec fn announced(data: Seq<u8>, size: int) -> int {
    let more = HEADER_IDS + word(data, 72) * (size / 4);
    if word(data, 68) == END {
        HEADER_IDS as int
    } else if more < TABLE_MAX {
        more
    } else {
        TABLE_MAX as int
    }
}

/// The sectors of the table: those that are known, and those in the list that
/// goes on in sector `at`, of which `left` bytes of the file are left to read.
/// Nothing, where there are more of them than announced, a sector has no room for
/// the number of the next one, or they cannot be counted on this machine.
pub open spec fn table_from(
    data: Seq<u8>,
    size: int,
    known: Seq<u32>,
    at: u32,
    left: int,
) -> Option<Seq<u32>>
    decreases left,
{
    let more = ids_at(data, HEADER + at * size, (size / 4 - 1) as nat);
    if at == END {
        Some(known)
    } else if at * size + size > usize::MAX {
        None
    } else if HEADER + at * size + size > data.len() {
        Some(known)
    } else if size < 4 || known.len() + more.len() > announced(data, size) {
        None
    } else if left < size {
        Some(known + more)
    } else {
        table_from(
            data,
            size,
            known + more,
            word(data, HEADER + at * size + size - 4),
            left - size,
        )
    }
}

/// The sectors of the table: those that the header names, and those in the list
/// that it goes on in where the header is full.
pub open spec fn table_of(data: Seq<u8>, size: int) -> Option<Seq<u32>> {
    let known = ids_at(data, 76, HEADER_IDS as nat);
    if known.len() == HEADER_IDS {
        table_from(data, size, known, word(data, 68), data.len() - HEADER)
    } else {
        Some(known)
    }
}

/// The name in an entry of the directory, up to the first NUL.
pub open spec fn name_at(data: Seq<u8>, at: int, most: nat) -> Seq<u16>
    decreases most,
{
    if most == 0 || half(data, at) == 0 {
        Seq::empty()
    } else {
        seq![half(data, at)] + name_at(data, at + 2, (most - 1) as nat)
    }
}

/// The name begins with the text.
pub open spec fn named_from(name: Seq<u16>, text: Seq<char>) -> bool {
    name.len() >= text.len() && forall|i: int|
        0 <= i < text.len() ==> (#[trigger] name[i]) as int == text[i] as int
}

/// The name is the text.
pub open spec fn named(name: Seq<u16>, text: Seq<char>) -> bool {
    name.len() == text.len() && named_from(name, text)
}

/// The name without the underscores that it begins with.
pub open spec fn after_gap(name: Seq<u16>) -> Seq<u16>
    decreases name.len(),
{
    if name.len() > 0 && name[0] == 0x5f {
        after_gap(name.skip(1))
    } else {
        name
    }
}

/// The name from its first underscore on.
pub open spec fn after_piece(name: Seq<u16>) -> Seq<u16>
    decreases name.len(),
{
    if name.len() > 0 && name[0] != 0x5f {
        after_piece(name.skip(1))
    } else {
        name
    }
}

/// The tag of a property: what stands between underscores in the second place.
pub open spec fn tag(name: Seq<u16>) -> Seq<u16> {
    let from = after_gap(after_piece(after_gap(name)));
    from.take(from.len() - after_piece(from).len())
}

/// The two units that the text begins with make one character.
pub open spec fn paired(units: Seq<u16>) -> bool {
    units.len() >= 2 && 0xd800 <= units[0] < 0xdc00 && 0xdc00 <= units[1] < 0xe000
}

/// The number of units of the character that the text begins with.
pub open spec fn taken(units: Seq<u16>) -> int {
    if paired(units) {
        2
    } else {
        1
    }
}

/// The bytes in UTF-8 of the character that the text begins with. A unit that is
/// no character is replaced by one of three bytes.
pub open spec fn width(units: Seq<u16>) -> int {
    if paired(units) {
        4
    } else if units[0] < 0x80 {
        1
    } else if units[0] < 0x800 {
        2
    } else {
        3
    }
}

/// The bytes of the text in UTF-8.
pub open spec fn utf8_len(units: Seq<u16>) -> int
    decreases units.len(),
{
    if units.len() == 0 {
        0
    } else {
        width(units) + utf8_len(units.skip(taken(units)))
    }
}

/// A character ends `n` bytes after the text begins in UTF-8.
pub open spec fn cuts(units: Seq<u16>, n: int) -> bool
    decreases units.len(),
{
    n == 0 || n > 0 && units.len() > 0 && cuts(units.skip(taken(units)), n - width(units))
}

/// The tag can be parted: it is too short to be, or no character lies across the
/// end of its first four bytes or the beginning of its last four.
pub open spec fn parts(tag: Seq<u16>) -> bool {
    utf8_len(tag) >= 8 ==> cuts(tag, 4) && cuts(tag, utf8_len(tag) - 4)
}

/// The byte of a stream at `p`, where it is in a list of sectors.
pub open spec fn byte_of(data: Seq<u8>, size: int, sectors: Seq<u32>, p: int) -> Option<u8> {
    match position(data, size, sectors, p) {
        Some(at) => Some(data[at]),
        None => None,
    }
}

/// Where byte `p` of a small stream stands in what the small streams share.
pub open spec fn small_position(small: int, sectors: Seq<u32>, p: int) -> Option<int> {
    if p / small < sectors.len() {
        Some(sectors[p / small] * small + p % small)
    } else {
        None
    }
}

/// The lists of sectors of a file that reading a stream needs.
pub struct Lists {
    /// The table of the sectors.
    pub table: Seq<u32>,
    /// The table of the sectors of the small streams.
    pub small_table: Seq<u32>,
    /// What the small streams share.
    pub shared: Seq<u32>,
}

/// The sectors that the entry of the directory at `at` in the file lists: those of
/// its stream, small or not, those of the root, or the one that it names.
pub open spec fn sectors_of(
    data: Seq<u8>,
    size: int,
    table: Seq<u32>,
    small_table: Seq<u32>,
    at: int,
) -> Seq<u32> {
    let first = word(data, at + 116);
    if data[at + 66] == 5 {
        list_of(data, size, table, first, END)
    } else if data[at + 66] != 2 {
        seq![first]
    } else if word(data, at + 120) < word(data, 56) {
        list_of(data, size, small_table, first, FREE)
    } else {
        list_of(data, size, table, first, END)
    }
}

/// The byte at `p` of the stream in the given sectors, if it is there.
pub open spec fn stream_byte(
    data: Seq<u8>,
    shared: Seq<u32>,
    sectors: Seq<u32>,
    is_small: bool,
    p: int,
) -> Option<u8> {
    let size = sector_size(data);
    if is_small {
        match small_position(small_size(data), sectors, p) {
            Some(q) => byte_of(data, size, shared, q),
            None => None,
        }
    } else {
        byte_of(data, size, sectors, p)
    }
}

/// The sector of a stream, or of what the small streams share for it, is in the
/// file.
pub open spec fn sector_is_there(data: Seq<u8>, shared: Seq<u32>, id: u32, is_small: bool) -> bool {
    let size = sector_size(data);
    if is_small {
        small_size(data) <= size && position(data, size, shared, id * small_size(data)) is Some
    } else {
        HEADER + id * size + size <= data.len()
    }
}

/// The stream in the given sectors can be read: they are all in the file.
pub open spec fn stream_is_there(
    data: Seq<u8>,
    shared: Seq<u32>,
    sectors: Seq<u32>,
    is_small: bool,
) -> bool {
    forall|i: int|
        0 <= i < sectors.len() ==> sector_is_there(data, shared, #[trigger] sectors[i], is_small)
}

/// A record of the stream that numbers named properties: its number has room for
/// what is added to it, and an offset into the names can be counted on this
/// machine.
pub open spec fn record_fits(
    data: Seq<u8>,
    shared: Seq<u32>,
    sectors: Seq<u32>,
    is_small: bool,
    i: int,
) -> bool {
    &&& stream_byte(data, shared, sectors, is_small, 8 * i + 7) matches Some(b) ==> b < 0x80
    &&& stream_byte(data, shared, sectors, is_small, 8 * i + 4) matches Some(b) ==> b % 2 == 0
        || usize::MAX > 0x2_0000_0003
}

/// The first `count` records of the stream that numbers named properties fit.
pub open spec fn all_records_fit(
    data: Seq<u8>,
    shared: Seq<u32>,
    sectors: Seq<u32>,
    is_small: bool,
    count: int,
) -> bool {
    forall|i: int| 0 <= i < count ==> #[trigger] record_fits(data, shared, sectors, is_small, i)
}

/// An entry of the directory, at `at` in the file, is one that the parser can read:
/// what is made of it can be counted on this machine, the tag of a property can be
/// parted, and the numbers of named properties fit. It reads no stream that is
/// empty or not all in the file.
pub open spec fn slot_fits(data: Seq<u8>, lists: Lists, at: int) -> bool {
    let name = name_at(data, at, 32);
    let len = word(data, at + 120);
    let is_small = len < word(data, 56);
    let sectors = sectors_of(data, sector_size(data), lists.table, lists.small_table, at);
    &&& len <= isize::MAX / 4
    &&& len > 0 && stream_is_there(data, lists.shared, sectors, is_small) ==> {
        &&& data[at + 66] == 2 && named_from(name, PROPERTY@) ==> parts(tag(name))
        &&& named(name, NAMED@) ==> all_records_fit(
            data,
            lists.shared,
            sectors,
            is_small,
            (len / 8) as int,
        )
    }
}

/// What the small streams share: the sectors of the first entry of the directory.
pub open spec fn shared_of(
    data: Seq<u8>,
    size: int,
    table: Seq<u32>,
    small_table: Seq<u32>,
    directory: Seq<u32>,
) -> Seq<u32> {
    match position(data, size, directory, 0) {
        Some(at) if size >= SLOT => sectors_of(data, size, table, small_table, at),
        _ => Seq::empty(),
    }
}

/// The file is one that the parser can be handed: it says of itself what the
/// parser counts on, or it is none that the parser goes beyond the header of.
pub open spec fn parsable(data: Seq<u8>) -> bool {
    has_header(data) ==> {
        let size = sector_size(data);
        &&& table_of(data, size) matches Some(table) && {
            let directory = list_of(data, size, table, word(data, 48), END);
            let small_table = list_of(data, size, table, word(data, 60), END);
            let lists = Lists {
                table,
                small_table,
                shared: shared_of(data, size, table, small_table, directory),
            };
            forall|k: int|
                0 <= k < directory.len() * (size / (SLOT as int)) ==> (#[trigger] slot_at(
                    data,
                    size,
                    directory,
                    k,
                ) matches Some(at) ==> slot_fits(data, lists, at))
        }
    }
}

/// Where entry `k` of the directory stands in the file, if it is there.
pub open spec fn slot_at(data: Seq<u8>, size: int, directory: Seq<u32>, k: int) -> Option<int> {
    position(data, size, directory, SLOT * k)
}

proof fn lemma_doubled(n: nat)
    requires
        n < 16,
    ensures
        1 <= doubled(n) <= 32768,
        doubled(n) >= 4 ==> doubled(n) % 4 == 0,
        doubled(n) >= SLOT ==> doubled(n) % 128 == 0,
{
    reveal_with_fuel(doubled, 17);
}

/// A part of the file that is made of pieces of one length, which divides that of
/// a sector, does not cross the end of a sector.
proof fn lemma_piece(size: int, piece: int, k: int)
    requires
        0 < piece <= size,
        size % piece == 0,
        k >= 0,
    ensures
        (piece * k) % size + piece <= size,
        0 <= (piece * k) % size,
{
    let m = size / piece;
    vstd::arithmetic::div_mod::lemma_fundamental_div_mod(size, piece);
    assert(size == piece * m);
    assert(m >= 1) by (nonlinear_arith)
        requires
            size == piece * m,
            size > 0,
            piece > 0,
    ;
    vstd::arithmetic::div_mod::lemma_truncate_middle(k, piece, m);
    assert((piece * k) % (piece * m) == piece * (k % m));
    assert(piece * (k % m) + piece <= piece * m) by (nonlinear_arith)
        requires
            m >= 1,
            piece > 0,
            0 <= k % m < m,
    ;
    assert(0 <= piece * (k % m)) by (nonlinear_arith)
        requires
            piece > 0,
            0 <= k % m,
    ;
}

proof fn lemma_in_file(id: u32, size: int)
    requires
        0 <= size <= 32768,
    ensures
        0 <= id * size <= 0xffff_ffff * 32768,
{
    assert(0 <= id * size <= 0xffff_ffff * 32768) by (nonlinear_arith)
        requires
            0 <= id <= 0xffff_ffff,
            0 <= size <= 32768,
    ;
}

fn half_at(data: &Vec<u8>, at: usize) -> (r: u16)
    requires
        at + 2 <= data@.len(),
    ensures
        r == half(data@, at as int),
{
    let len: usize = data.len();
    data[at] as u16 + data[at + 1] as u16 * 256
}

fn word_at(data: &Vec<u8>, at: usize) -> (r: u32)
    requires
        at + 4 <= data@.len(),
    ensures
        r == word(data@, at as int),
{
    let len: usize = data.len();
    data[at] as u32 + data[at + 1] as u32 * 256 + data[at + 2] as u32 * 65536 + data[at + 3] as u32
        * 16777216
}

fn double(n: u16) -> (r: u64)
    requires
        n < 16,
    ensures
        r == doubled(n as nat),
        1 <= r <= 32768,
{
    let mut r: u64 = 1;
    for i in 0..n
        invariant
            n < 16,
            r == doubled(i as nat),
    {
        proof {
            lemma_doubled(i as nat);
        }
        r = 2 * r;
    }
    proof {
        lemma_doubled(n as nat);
    }
    r
}

fn goes_beyond_header(data: &Vec<u8>) -> (r: bool)
    ensures
        r == has_header(data@),
{
    data.len() >= HEADER && data[0] == 0xd0 && data[1] == 0xcf && data[2] == 0x11 && data[3] == 0xe0
        && data[4] == 0xa1 && data[5] == 0xb1 && data[6] == 0x1a && data[7] == 0xe1 && data[28]
        == 0xfe && data[29] == 0xff && half_at(data, 30) < 16 && half_at(data, 32) < 16 && word_at(
        data,
        56,
    ) >= 4096
}

/// `position`.
fn find(data: &Vec<u8>, size: u64, sectors: &Vec<u32>, p: u128) -> (r: Option<usize>)
    requires
        0 < size <= 32768,
    ensures
        match r {
            Some(at) => position(data@, size as int, sectors@, p as int) == Some(at as int) && at
                + size - p as int % size as int <= data@.len(),
            None => position(data@, size as int, sectors@, p as int) is None,
        },
{
    let k: u128 = p / size as u128;
    if k >= sectors.len() as u128 {
        return None;
    }
    let id: u32 = sectors[k as usize];
    proof {
        lemma_in_file(id, size as int);
    }
    let from: u64 = 512 + id as u64 * size;
    if from + size > data.len() as u64 {
        return None;
    }
    Some((from + (p % size as u128) as u64) as usize)
}

/// `entry`.
fn table_entry(data: &Vec<u8>, size: u64, table: &Vec<u32>, i: u32) -> (r: Option<u32>)
    requires
        0 < size <= 32768,
        size % 4 == 0,
    ensures
        r == entry(data@, size as int, table@, i as int),
{
    proof {
        lemma_piece(size as int, 4, i as int);
    }
    match find(data, size, table, 4 * i as u128) {
        Some(at) => Some(word_at(data, at)),
        None => None,
    }
}

/// `list_of`.
fn collect_list(
    data: &Vec<u8>,
    size: u64,
    table: &Vec<u32>,
    first: u32,
    stop: u32,
) -> (r: Vec<u32>)
    requires
        0 < size <= 32768,
        size >= 4 ==> size % 4 == 0,
    ensures
        r@ == list_of(data@, size as int, table@, first, stop),
{
    if size < 4 {
        return Vec::new();
    }
    let ghost all = list_of(data@, size as int, table@, first, stop);
    let entries: usize = table.len();
    let per_sector: u64 = size / 4;
    assert(0 <= entries * per_sector <= 0xffff_ffff_ffff_ffff * 8192) by (nonlinear_arith)
        requires
            0 <= entries <= 0xffff_ffff_ffff_ffff,
            0 <= per_sector <= 8192,
    ;
    let mut left: u128 = entries as u128 * per_sector as u128 + 1;
    let mut ids: Vec<u32> = Vec::new();
    let mut at: u32 = first;
    assert(ids@ + list(data@, size as int, table@, at, stop, left as nat) =~= all);
    while left > 0 && at != END && at != stop
        invariant
            0 < size <= 32768,
            size % 4 == 0,
            ids@ + list(data@, size as int, table@, at, stop, left as nat) == all,
            all == list_of(data@, size as int, table@, first, stop),
        decreases left,
    {
        match table_entry(data, size, table, at) {
            Some(next) => {
                let ghost before = ids@;
                ids.push(at);
                assert(ids@ + list(data@, size as int, table@, next, stop, (left - 1) as nat) =~= before
                    + list(data@, size as int, table@, at, stop, left as nat));
                at = next;
                left = left - 1;
            },
            None => {
                assert(ids@ =~= all);
                return ids;
            },
        }
    }
    assert(ids@ =~= all);
    ids
}

/// `ids_at`, appended to what is there.
fn push_ids(ids: &mut Vec<u32>, data: &Vec<u8>, at: usize, most: usize)
    requires
        at + 4 * most <= data@.len(),
    ensures
        final(ids)@ == old(ids)@ + ids_at(data@, at as int, most as nat),
{
    let ghost all = ids@ + ids_at(data@, at as int, most as nat);
    let len: usize = data.len();
    let mut i: usize = 0;
    while i < most
        invariant
            i <= most,
            at + 4 * most <= data@.len() == len,
            all == old(ids)@ + ids_at(data@, at as int, most as nat),
            ids@ + ids_at(data@, at + 4 * i, (most - i) as nat) == all,
        decreases most - i,
    {
        let id: u32 = word_at(data, at + 4 * i);
        if id == FREE {
            assert(ids@ =~= all);
            return;
        }
        let ghost before = ids@;
        ids.push(id);
        assert(ids@ + ids_at(data@, at + 4 * (i + 1), (most - i - 1) as nat) =~= before + ids_at(
            data@,
            at + 4 * i,
            (most - i) as nat,
        ));
        i = i + 1;
    }
    assert(ids@ =~= all);
}

/// `announced`.
fn announced_sectors(data: &Vec<u8>, size: u64) -> (r: u64)
    requires
        has_header(data@),
        0 < size <= 32768,
    ensures
        r == announced(data@, size as int),
{
    let extra: u32 = word_at(data, 72);
    proof {
        lemma_in_file(extra, size as int / 4);
    }
    let more: u64 = 109 + extra as u64 * (size / 4);
    if word_at(data, 68) == END {
        109
    } else if more < TABLE_MAX {
        more
    } else {
        TABLE_MAX
    }
}

/// `table_of`.
fn collect_table(data: &Vec<u8>, size: u64) -> (r: Option<Vec<u32>>)
    requires
        has_header(data@),
        0 < size <= 32768,
        size >= 4 ==> size % 4 == 0,
    ensures
        match r {
            Some(table) => table_of(data@, size as int) == Some(table@),
            None => table_of(data@, size as int) is None,
        },
{
    let mut ids: Vec<u32> = Vec::new();
    push_ids(&mut ids, data, 76, HEADER_IDS);
    assert(ids@ =~= ids_at(data@, 76, HEADER_IDS as nat));
    if ids.len() != HEADER_IDS {
        return Some(ids);
    }
    let ghost all = table_of(data@, size as int);
    let limit: u64 = announced_sectors(data, size);
    let mut at: u32 = word_at(data, 68);
    let mut left: u64 = data.len() as u64 - 512;
    while at != END
        invariant
            has_header(data@),
            0 < size <= 32768,
            size >= 4 ==> size % 4 == 0,
            limit == announced(data@, size as int),
            0 <= left <= data@.len() - 512,
            all == table_of(data@, size as int),
            all == table_from(data@, size as int, ids@, at, left as int),
        decreases left,
    {
        proof {
            lemma_in_file(at, size as int);
        }
        let from: u64 = at as u64 * size;
        if from as u128 + size as u128 > usize::MAX as u128 {
            return None;
        }
        if 512 + from + size > data.len() as u64 {
            return Some(ids);
        }
        if size < 4 {
            return None;
        }
        push_ids(&mut ids, data, (512 + from) as usize, (size / 4 - 1) as usize);
        if ids.len() as u64 > limit {
            return None;
        }
        if left < size {
            return Some(ids);
        }
        at = word_at(data, (512 + from + size - 4) as usize);
        left = left - size;
    }
    Some(ids)
}

/// `name_at`.
fn read_name(data: &Vec<u8>, at: usize) -> (r: Vec<u16>)
    requires
        at + 64 <= data@.len(),
    ensures
        r@ == name_at(data@, at as int, 32),
        r@.len() <= 32,
{
    let ghost all = name_at(data@, at as int, 32);
    let len: usize = data.len();
    let mut name: Vec<u16> = Vec::new();
    let mut i: usize = 0;
    assert(name@ + name_at(data@, at as int, 32) =~= all);
    while i < 32
        invariant
            i <= 32,
            name@.len() <= i,
            at + 64 <= data@.len() == len,
            all == name_at(data@, at as int, 32),
            name@ + name_at(data@, at + 2 * i, (32 - i) as nat) == all,
        decreases 32 - i,
    {
        let unit: u16 = half_at(data, at + 2 * i);
        if unit == 0 {
            assert(name@ =~= all);
            return name;
        }
        let ghost before = name@;
        name.push(unit);
        assert(name@ + name_at(data@, at + 2 * (i + 1), (32 - i - 1) as nat) =~= before + name_at(
            data@,
            at + 2 * i,
            (32 - i) as nat,
        ));
        i = i + 1;
    }
    assert(name@ =~= all);
    name
}

/// `named_from`.
fn is_named_from(name: &Vec<u16>, text: &str) -> (r: bool)
    ensures
        r == named_from(name@, text@),
{
    let chars = text::chars_of(text);
    if name.len() < chars.len() {
        return false;
    }
    for i in 0..chars.len()
        invariant
            chars@ == text@,
            name@.len() >= chars@.len(),
            forall|j: int| 0 <= j < i ==> (#[trigger] name@[j]) as int == text@[j] as int,
    {
        if !same_unit(name[i], chars[i]) {
            assert(name@[i as int] as int != text@[i as int] as int);
            return false;
        }
    }
    true
}

fn same_unit(unit: u16, c: char) -> (r: bool)
    ensures
        r == (unit as int == c as int),
{
    unit as u32 == c as u32
}

/// Where the underscores end that stand from `from` on.
fn skip_gap(name: &Vec<u16>, from: usize) -> (r: usize)
    requires
        from <= name@.len(),
    ensures
        from <= r <= name@.len(),
        name@.skip(r as int) == after_gap(name@.skip(from as int)),
{
    let mut at: usize = from;
    while at < name.len() && name[at] == 0x5f
        invariant
            from <= at <= name@.len(),
            after_gap(name@.skip(at as int)) == after_gap(name@.skip(from as int)),
        decreases name@.len() - at,
    {
        assert(name@.skip(at as int).skip(1) =~= name@.skip(at + 1));
        at = at + 1;
    }
    at
}

/// Where the first underscore stands from `from` on.
fn skip_piece(name: &Vec<u16>, from: usize) -> (r: usize)
    requires
        from <= name@.len(),
    ensures
        from <= r <= name@.len(),
        name@.skip(r as int) == after_piece(name@.skip(from as int)),
{
    let mut at: usize = from;
    while at < name.len() && name[at] != 0x5f
        invariant
            from <= at <= name@.len(),
            after_piece(name@.skip(at as int)) == after_piece(name@.skip(from as int)),
        decreases name@.len() - at,
    {
        assert(name@.skip(at as int).skip(1) =~= name@.skip(at + 1));
        at = at + 1;
    }
    at
}

/// `tag`.
fn tag_of(name: &Vec<u16>) -> (r: Vec<u16>)
    ensures
        r@ == tag(name@),
        r@.len() <= name@.len(),
{
    assert(name@.skip(0) =~= name@);
    let first: usize = skip_gap(name, 0);
    let gap: usize = skip_piece(name, first);
    let from: usize = skip_gap(name, gap);
    let to: usize = skip_piece(name, from);
    let mut out: Vec<u16> = Vec::new();
    for i in from..to
        invariant
            from <= to <= name@.len(),
            out@ == name@.subrange(from as int, i as int),
    {
        out.push(name[i]);
        assert(name@.subrange(from as int, i + 1) =~= name@.subrange(from as int, i as int).push(
            name@[i as int],
        ));
    }
    assert(name@.subrange(from as int, to as int) =~= name@.skip(from as int).take(to - from));
    out
}

/// `taken` and `width`, of the text from `at` on.
fn character_at(units: &Vec<u16>, at: usize) -> (r: (usize, u64))
    requires
        at < units@.len(),
    ensures
        r.0 == taken(units@.skip(at as int)),
        r.1 == width(units@.skip(at as int)),
        at + r.0 <= units@.len(),
        1 <= r.1 <= 4 * r.0,
{
    let unit: u16 = units[at];
    if units.len() - at >= 2 && 0xd800 <= unit && unit < 0xdc00 && 0xdc00 <= units[at + 1]
        && units[at + 1] < 0xe000 {
        (2, 4)
    } else if unit < 0x80 {
        (1, 1)
    } else if unit < 0x800 {
        (1, 2)
    } else {
        (1, 3)
    }
}

/// `utf8_len`.
fn count_utf8(units: &Vec<u16>) -> (r: u64)
    requires
        units@.len() <= 32,
    ensures
        r == utf8_len(units@),
{
    let mut at: usize = 0;
    let mut count: u64 = 0;
    assert(units@.skip(0) =~= units@);
    while at < units.len()
        invariant
            at <= units@.len() <= 32,
            count <= 4 * at,
            count + utf8_len(units@.skip(at as int)) == utf8_len(units@),
        decreases units@.len() - at,
    {
        let (units_taken, bytes) = character_at(units, at);
        assert(units@.skip(at as int).skip(units_taken as int) =~= units@.skip(at + units_taken));
        at = at + units_taken;
        count = count + bytes;
    }
    count
}

/// `cuts`.
fn is_cut(units: &Vec<u16>, n: u64) -> (r: bool)
    ensures
        r == cuts(units@, n as int),
{
    let mut at: usize = 0;
    let mut left: u64 = n;
    assert(units@.skip(0) =~= units@);
    while left > 0
        invariant
            at <= units@.len(),
            cuts(units@.skip(at as int), left as int) == cuts(units@, n as int),
        decreases left,
    {
        if at >= units.len() {
            return false;
        }
        let (units_taken, bytes) = character_at(units, at);
        if left < bytes {
            assert(!cuts(units@.skip(at as int).skip(units_taken as int), left - bytes));
            return false;
        }
        assert(units@.skip(at as int).skip(units_taken as int) =~= units@.skip(at + units_taken));
        at = at + units_taken;
        left = left - bytes;
    }
    true
}

/// `parts`.
fn is_parted(tag: &Vec<u16>) -> (r: bool)
    requires
        tag@.len() <= 32,
    ensures
        r == parts(tag@),
{
    let len: u64 = count_utf8(tag);
    len < 8 || (is_cut(tag, 4) && is_cut(tag, len - 4))
}

/// The lists of sectors of a file that reading a stream needs.
struct SectorLists {
    table: Vec<u32>,
    small_table: Vec<u32>,
    shared: Vec<u32>,
}

impl View for SectorLists {
    type V = Lists;

    closed spec fn view(&self) -> Lists {
        Lists { table: self.table@, small_table: self.small_table@, shared: self.shared@ }
    }
}

/// `sectors_of`.
fn collect_sectors(
    data: &Vec<u8>,
    size: u64,
    table: &Vec<u32>,
    small_table: &Vec<u32>,
    at: usize,
) -> (r: Vec<u32>)
    requires
        has_header(data@),
        0 < size <= 32768,
        size >= 4 ==> size % 4 == 0,
        at + 128 <= data@.len(),
    ensures
        r@ == sectors_of(data@, size as int, table@, small_table@, at as int),
{
    let len: usize = data.len();
    let first: u32 = word_at(data, at + 116);
    if data[at + 66] == 5 {
        collect_list(data, size, table, first, END)
    } else if data[at + 66] != 2 {
        let mut one: Vec<u32> = Vec::new();
        one.push(first);
        assert(one@ =~= seq![first]);
        one
    } else if word_at(data, at + 120) < word_at(data, 56) {
        collect_list(data, size, small_table, first, FREE)
    } else {
        collect_list(data, size, table, first, END)
    }
}

/// `stream_byte`.
fn read_stream_byte(
    data: &Vec<u8>,
    size: u64,
    small: u64,
    shared: &Vec<u32>,
    sectors: &Vec<u32>,
    is_small: bool,
    p: u64,
) -> (r: Option<u8>)
    requires
        0 < size <= 32768,
        0 < small <= 32768,
        size == sector_size(data@),
        small == small_size(data@),
    ensures
        r == stream_byte(data@, shared@, sectors@, is_small, p as int),
{
    let at = if is_small {
        let k: u64 = p / small;
        if k >= sectors.len() as u64 {
            return None;
        }
        let id: u32 = sectors[k as usize];
        proof {
            lemma_in_file(id, small as int);
        }
        find(data, size, shared, (id as u64 * small + p % small) as u128)
    } else {
        find(data, size, sectors, p as u128)
    };
    match at {
        Some(at) => Some(data[at]),
        None => None,
    }
}

/// `stream_is_there`.
fn is_there(
    data: &Vec<u8>,
    size: u64,
    small: u64,
    shared: &Vec<u32>,
    sectors: &Vec<u32>,
    is_small: bool,
) -> (r: bool)
    requires
        0 < size <= 32768,
        0 < small <= 32768,
        size == sector_size(data@),
        small == small_size(data@),
    ensures
        r == stream_is_there(data@, shared@, sectors@, is_small),
{
    for i in 0..sectors.len()
        invariant
            0 < size <= 32768,
            0 < small <= 32768,
            size == sector_size(data@),
            small == small_size(data@),
            forall|j: int|
                0 <= j < i ==> sector_is_there(data@, shared@, #[trigger] sectors@[j], is_small),
    {
        let id: u32 = sectors[i];
        proof {
            lemma_in_file(id, size as int);
            lemma_in_file(id, small as int);
        }
        let found = if is_small {
            small <= size && find(data, size, shared, (id as u64 * small) as u128).is_some()
        } else {
            512 + id as u64 * size + size <= data.len() as u64
        };
        if !found {
            assert(!sector_is_there(data@, shared@, sectors@[i as int], is_small));
            return false;
        }
    }
    true
}

/// `all_records_fit`.
fn records_fit(
    data: &Vec<u8>,
    size: u64,
    small: u64,
    shared: &Vec<u32>,
    sectors: &Vec<u32>,
    is_small: bool,
    count: u32,
) -> (r: bool)
    requires
        0 < size <= 32768,
        0 < small <= 32768,
        size == sector_size(data@),
        small == small_size(data@),
    ensures
        r == all_records_fit(data@, shared@, sectors@, is_small, count as int),
{
    for i in 0..count
        invariant
            0 < size <= 32768,
            0 < small <= 32768,
            size == sector_size(data@),
            small == small_size(data@),
            forall|j: int|
                0 <= j < i ==> #[trigger] record_fits(data@, shared@, sectors@, is_small, j),
    {
        let from: u64 = 8 * i as u64;
        let number = read_stream_byte(data, size, small, shared, sectors, is_small, from + 7);
        let kind = read_stream_byte(data, size, small, shared, sectors, is_small, from + 4);
        let number_fits = match number {
            Some(b) => b < 0x80,
            None => true,
        };
        let kind_fits = match kind {
            Some(b) => b % 2 == 0 || usize::MAX as u128 > 0x2_0000_0003,
            None => true,
        };
        if !number_fits || !kind_fits {
            assert(!record_fits(data@, shared@, sectors@, is_small, i as int));
            return false;
        }
    }
    true
}

/// `slot_fits`.
fn slot_is_fit(data: &Vec<u8>, size: u64, small: u64, lists: &SectorLists, at: usize) -> (r: bool)
    requires
        has_header(data@),
        0 < size <= 32768,
        size >= 4 ==> size % 4 == 0,
        0 < small <= 32768,
        size == sector_size(data@),
        small == small_size(data@),
        at + 128 <= data@.len(),
    ensures
        r == slot_fits(data@, lists@, at as int),
{
    let end: usize = data.len();
    let name = read_name(data, at);
    let len: u32 = word_at(data, at + 120);
    if len as u128 > (isize::MAX / 4) as u128 {
        return false;
    }
    let is_small = len < word_at(data, 56);
    let sectors = collect_sectors(data, size, &lists.table, &lists.small_table, at);
    if len == 0 || !is_there(data, size, small, &lists.shared, &sectors, is_small) {
        return true;
    }
    if data[at + 66] == 2 && is_named_from(&name, PROPERTY) && !is_parted(&tag_of(&name)) {
        return false;
    }
    proof {
        reveal_strlit("__substg1.0_00030102");
    }
    name.len() != 20 || !is_named_from(&name, NAMED) || records_fit(
        data,
        size,
        small,
        &lists.shared,
        &sectors,
        is_small,
        len / 8,
    )
}

/// Whether a file is one that the parser can be handed.
pub fn is_parsable(data: &Vec<u8>) -> (r: bool)
    ensures
        r == parsable(data@),
{
    if !goes_beyond_header(data) {
        return true;
    }
    let size: u64 = double(half_at(data, 30));
    let small: u64 = double(half_at(data, 32));
    proof {
        lemma_doubled(half(data@, 30) as nat);
    }
    let table = match collect_table(data, size) {
        Some(table) => table,
        None => {
            return false;
        },
    };
    let directory = collect_list(data, size, &table, word_at(data, 48), END);
    let small_table = collect_list(data, size, &table, word_at(data, 60), END);
    let shared = match find(data, size, &directory, 0) {
        Some(at) if size >= SLOT => {
            proof {
                lemma_piece(size as int, 128, 0);
            }
            collect_sectors(data, size, &table, &small_table, at)
        },
        _ => Vec::new(),
    };
    assert(shared@ =~= shared_of(data@, size as int, table@, small_table@, directory@));
    let lists = SectorLists { table, small_table, shared };
    let sectors: usize = directory.len();
    let per_sector: u64 = size / SLOT;
    assert(0 <= sectors * per_sector <= 0xffff_ffff_ffff_ffff * 256) by (nonlinear_arith)
        requires
            0 <= sectors <= 0xffff_ffff_ffff_ffff,
            0 <= per_sector <= 256,
    ;
    let slots: u128 = sectors as u128 * per_sector as u128;
    let mut k: u128 = 0;
    while k < slots
        invariant
            has_header(data@),
            0 < size <= 32768,
            size >= SLOT ==> size % 128 == 0,
            size >= 4 ==> size % 4 == 0,
            0 < small <= 32768,
            size == sector_size(data@),
            small == small_size(data@),
            0 <= k <= slots <= 0xffff_ffff_ffff_ffff * 256,
            slots == directory@.len() * (size as int / SLOT as int),
            table_of(data@, size as int) == Some(lists@.table),
            directory@ == list_of(data@, size as int, lists@.table, word(data@, 48), END),
            lists@.small_table == list_of(data@, size as int, lists@.table, word(data@, 60), END),
            lists@.shared == shared_of(
                data@,
                size as int,
                lists@.table,
                lists@.small_table,
                directory@,
            ),
            forall|i: int|
                0 <= i < k ==> (#[trigger] slot_at(data@, size as int, directory@, i) matches Some(
                    at,
                ) ==> slot_fits(data@, lists@, at)),
        decreases slots - k,
    {
        proof {
            lemma_piece(size as int, 128, k as int);
        }
        match find(data, size, &directory, 128 * k) {
            Some(at) => {
                if !slot_is_fit(data, size, small, &lists, at) {
                    assert(slot_at(data@, size as int, directory@, k as int) == Some(at as int));
                    return false;
                }
            },
            None => {},
        }
        k = k + 1;
    }
    true
}

/// Whether a file is one that the parser can be handed is no question where it has no
/// header: the parser looks no further.
pub proof fn law_a_file_without_a_header_can_be_handed_over(data: Vec<u8>, found: bool)
    requires
        call_ensures(is_parsable, (&data,), found),
        data@.len() < 512 || data@[0] != 0xd0 || data@[1] != 0xcf || data@[2] != 0x11 || data@[3]
            != 0xe0,
    ensures
        found,
{
}

/// The text stands at `at` in the file, in units of two bytes.
pub open spec fn spelled_at(data: Seq<u8>, at: int, text: Seq<char>) -> bool {
    forall|i: int|
        0 <= i < text.len() ==> half(data, at + 2 * i) as int == (#[trigger] text[i]) as int
}

/// What stands at `at` does no harm as an entry of the directory: its length can be
/// counted, and where its name is that of a property, that is in ASCII and not the
/// one that numbers the named properties.
pub open spec fn harmless(data: Seq<u8>, at: int) -> bool {
    &&& word(data, at + 120) <= isize::MAX / 4
    &&& spelled_at(data, at, "__substg1.0"@) ==> {
        &&& forall|unit: int|
            at <= unit < at + 64 && (unit - at) % 2 == 0 ==> #[trigger] half(data, unit) < 0x80
        &&& !spelled_at(data, at, "__substg1.0_00030102"@)
    }
}

proof fn lemma_name_units(data: Seq<u8>, at: int, most: nat)
    ensures
        name_at(data, at, most).len() <= most,
        forall|i: int|
            0 <= i < name_at(data, at, most).len() ==> #[trigger] name_at(data, at, most)[i] == half(
                data,
                at + 2 * i,
            ),
    decreases most,
{
    if most > 0 && half(data, at) != 0 {
        lemma_name_units(data, at + 2, (most - 1) as nat);
        let name = name_at(data, at, most);
        let rest = name_at(data, at + 2, (most - 1) as nat);
        assert forall|i: int| 0 <= i < name.len() implies #[trigger] name[i] == half(
            data,
            at + 2 * i,
        ) by {
            if i > 0 {
                assert(name[i] == rest[i - 1]);
            }
        }
    }
}

spec fn ascii_units(units: Seq<u16>) -> bool {
    forall|i: int| 0 <= i < units.len() ==> #[trigger] units[i] < 0x80
}

proof fn lemma_ascii_pieces(name: Seq<u16>)
    requires
        ascii_units(name),
    ensures
        ascii_units(after_gap(name)),
        ascii_units(after_piece(name)),
        after_piece(name).len() <= name.len(),
    decreases name.len(),
{
    if name.len() > 0 {
        let rest = name.skip(1);
        assert forall|i: int| 0 <= i < rest.len() implies #[trigger] rest[i] < 0x80 by {
            assert(rest[i] == name[i + 1]);
        }
        lemma_ascii_pieces(rest);
    }
}

proof fn lemma_ascii_cuts(units: Seq<u16>, n: int)
    requires
        ascii_units(units),
        0 <= n <= units.len(),
    ensures
        cuts(units, n),
        utf8_len(units) == units.len(),
    decreases units.len(),
{
    if units.len() > 0 {
        let rest = units.skip(1);
        assert forall|i: int| 0 <= i < rest.len() implies #[trigger] rest[i] < 0x80 by {
            assert(rest[i] == units[i + 1]);
        }
        assert(units[0] < 0x80);
        lemma_ascii_cuts(
            rest,
            if n > 0 {
                n - 1
            } else {
                0
            },
        );
    }
}

proof fn lemma_harmless_slot(data: Seq<u8>, lists: Lists, at: int)
    requires
        harmless(data, at),
    ensures
        slot_fits(data, lists, at),
{
    reveal_strlit("__substg1.0");
    reveal_strlit("__substg1.0_00030102");
    let name = name_at(data, at, 32);
    lemma_name_units(data, at, 32);
    if named_from(name, PROPERTY@) {
        assert(spelled_at(data, at, "__substg1.0"@)) by {
            assert forall|i: int| 0 <= i < "__substg1.0"@.len() implies half(
                data,
                at + 2 * i,
            ) as int == (#[trigger] "__substg1.0"@[i]) as int by {
                assert(name[i] as int == PROPERTY@[i] as int);
            }
        }
        assert forall|i: int| 0 <= i < name.len() implies #[trigger] name[i] < 0x80 by {
            assert((at + 2 * i - at) % 2 == 0);
            assert(half(data, at + 2 * i) < 0x80);
        }
        lemma_ascii_pieces(name);
        lemma_ascii_pieces(after_gap(name));
        let gap = after_piece(after_gap(name));
        lemma_ascii_pieces(gap);
        let from = after_gap(gap);
        lemma_ascii_pieces(from);
        let tag = tag(name);
        assert forall|i: int| 0 <= i < tag.len() implies #[trigger] tag[i] < 0x80 by {
            assert(tag[i] == from[i]);
        }
        lemma_ascii_cuts(tag, 0);
        if tag.len() >= 8 {
            lemma_ascii_cuts(tag, 4);
            lemma_ascii_cuts(tag, tag.len() - 4);
        }
        if named(name, NAMED@) {
            assert(spelled_at(data, at, "__substg1.0_00030102"@)) by {
                assert forall|i: int| 0 <= i < "__substg1.0_00030102"@.len() implies half(
                    data,
                    at + 2 * i,
                ) as int == (#[trigger] "__substg1.0_00030102"@[i]) as int by {
                    assert(name[i] as int == NAMED@[i] as int);
                }
            }
        }
    } else if named(name, NAMED@) {
        assert forall|i: int| 0 <= i < PROPERTY@.len() implies (#[trigger] name[i]) as int
            == PROPERTY@[i] as int by {
            assert(name[i] as int == NAMED@[i] as int);
            assert(NAMED@[i] == PROPERTY@[i]);
        }
    }
}

proof fn lemma_ids_end(data: Seq<u8>, at: int, most: nat, i: int)
    requires
        0 <= i < most,
        word(data, at + 4 * i) == FREE,
    ensures
        ids_at(data, at, most).len() <= i,
    decreases most,
{
    if i > 0 && word(data, at) != FREE {
        lemma_ids_end(data, at + 4, (most - 1) as nat, i - 1);
    }
}

proof fn lemma_slots_are_aligned(size: int, id: int, k: int)
    requires
        size > 0,
        size % 128 == 0,
        id >= 0,
        k >= 0,
    ensures
        (id * size + (128 * k) % size) % 128 == 0,
{
    let m = size / 128;
    assert(size == 128 * m);
    vstd::arithmetic::div_mod::lemma_truncate_middle(k, 128, m);
    assert((128 * k) % size == 128 * (k % m));
    assert(id * size + 128 * (k % m) == 128 * (id * m + k % m)) by (nonlinear_arith)
        requires
            size == 128 * m,
    ;
}

/// A file is not refused without need: where the header has room left for the sectors
/// of the table, and nothing in the file would do harm as an entry of the directory,
/// the parser can be handed the file, whatever else it holds and however long it is.
pub proof fn law_a_harmless_file_can_be_handed_over(data: Vec<u8>, found: bool, free: int)
    requires
        call_ensures(is_parsable, (&data,), found),
        0 <= free < 109,
        word(data@, 76 + 4 * free) == 0xffff_ffff,
        forall|at: int|
            512 <= at && at + 128 <= data@.len() && (at - 512) % 128 == 0 ==> #[trigger] harmless(
                data@,
                at,
            ),
    ensures
        found,
{
    let d = data@;
    if has_header(d) {
        let size = sector_size(d);
        lemma_doubled(half(d, 30) as nat);
        lemma_ids_end(d, 76, HEADER_IDS as nat, free);
        let table = table_of(d, size)->0;
        let directory = list_of(d, size, table, word(d, 48), END);
        let small_table = list_of(d, size, table, word(d, 60), END);
        let lists = Lists {
            table,
            small_table,
            shared: shared_of(d, size, table, small_table, directory),
        };
        assert forall|k: int|
            0 <= k < directory.len() * (size / (SLOT as int)) implies (#[trigger] slot_at(
            d,
            size,
            directory,
            k,
        ) matches Some(at) ==> slot_fits(d, lists, at)) by {
            if let Some(at) = slot_at(d, size, directory, k) {
                if size < 128 {
                    assert(size / 128 == 0);
                    assert(directory.len() * 0 == 0);
                }
                let id = directory[(128 * k) / size] as int;
                lemma_piece(size, 128, k);
                lemma_slots_are_aligned(size, id, k);
                assert(0 <= id * size) by (nonlinear_arith)
                    requires
                        0 <= id,
                        0 < size,
                ;
                assert(at == 512 + id * size + (128 * k) % size);
                assert(harmless(d, at));
                lemma_harmless_slot(d, lists, at);
            }
        }
        assert(parsable(d));
    }
}

/// A file that would stop the parser is refused: one of which an entry of the directory
/// has a stream that the parser reads and that numbers a named property beyond what
/// there is room for, or that is a property with a tag of which a character lies across
/// the end of the first four bytes or the beginning of the last four.
pub proof fn law_a_harmful_file_is_refused(
    data: Vec<u8>,
    found: bool,
    table: Seq<u32>,
    k: int,
    at: int,
    i: int,
)
    requires
        call_ensures(is_parsable, (&data,), found),
        has_header(data@),
        table_of(data@, sector_size(data@)) == Some(table),
        ({
            let d = data@;
            let size = sector_size(d);
            let directory = list_of(d, size, table, word(d, 48), END);
            let small_table = list_of(d, size, table, word(d, 60), END);
            let shared = shared_of(d, size, table, small_table, directory);
            let sectors = sectors_of(d, size, table, small_table, at);
            let len = word(d, at + 120);
            let is_small = len < word(d, 56);
            let name = name_at(d, at, 32);
            &&& 0 <= k < directory.len() * (size / 128)
            &&& slot_at(d, size, directory, k) == Some(at)
            &&& len > 0
            &&& stream_is_there(d, shared, sectors, is_small)
            &&& ({
                &&& name.len() == 20 && spelled_at(d, at, "__substg1.0_00030102"@)
                &&& 0 <= 8 * i && 8 * i + 8 <= len
                &&& stream_byte(d, shared, sectors, is_small, 8 * i + 7) matches Some(b) && b >= 0x80
            }) || ({
                &&& name.len() >= 11 && spelled_at(d, at, "__substg1.0"@)
                &&& d[at + 66] == 2
                &&& utf8_len(tag(name)) >= 8
                &&& !cuts(tag(name), 4) || !cuts(tag(name), utf8_len(tag(name)) - 4)
            })
        }),
    ensures
        !found,
{
    let d = data@;
    let size = sector_size(d);
    let directory = list_of(d, size, table, word(d, 48), END);
    let small_table = list_of(d, size, table, word(d, 60), END);
    let lists = Lists {
        table,
        small_table,
        shared: shared_of(d, size, table, small_table, directory),
    };
    let sectors = sectors_of(d, size, table, small_table, at);
    let len = word(d, at + 120);
    let name = name_at(d, at, 32);
    reveal_strlit("__substg1.0");
    reveal_strlit("__substg1.0_00030102");
    lemma_name_units(d, at, 32);
    if name.len() == 20 && spelled_at(d, at, "__substg1.0_00030102"@) {
        assert forall|j: int| 0 <= j < NAMED@.len() implies (#[trigger] name[j]) as int
            == NAMED@[j] as int by {
            assert("__substg1.0_00030102"@[j] == NAMED@[j]);
        }
        assert(named(name, NAMED@));
    }
    if name.len() >= 11 && spelled_at(d, at, "__substg1.0"@) {
        assert forall|j: int| 0 <= j < PROPERTY@.len() implies (#[trigger] name[j]) as int
            == PROPERTY@[j] as int by {
            assert("__substg1.0"@[j] == PROPERTY@[j]);
        }
        assert(named_from(name, PROPERTY@));
    }
    if found {
        assert(slot_at(d, size, directory, k) matches Some(at) ==> slot_fits(d, lists, at));
        assert(slot_fits(d, lists, at));
        if named(name, NAMED@) && 0 <= 8 * i && 8 * i + 8 <= len {
            assert(record_fits(d, lists.shared, sectors, len < word(d, 56), i));
        }
    }
}

/// The units of a text that are characters on their own: no halves of a pair.
pub open spec fn unpaired(units: Seq<u16>) -> bool {
    forall|i: int| 0 <= i < units.len() ==> !(0xd800 <= #[trigger] units[i] < 0xe000)
}

/// The bytes of a text are those of its parts, and it can be cut where a part ends and
/// nowhere inside a character. A unit takes one byte below 0x80, two below 0x800 and
/// else three, and a pair of halves takes four.
pub proof fn law_bytes_are_counted_by_characters(
    a: Seq<u16>,
    b: Seq<u16>,
    unit: u16,
    high: u16,
    low: u16,
)
    requires
        unpaired(a),
        0xd800 <= high < 0xdc00,
        0xdc00 <= low < 0xe000,
    ensures
        utf8_len(a + b) == utf8_len(a) + utf8_len(b),
        utf8_len(a) >= a.len(),
        cuts(a + b, utf8_len(a)),
        utf8_len(seq![unit]) == (if unit < 0x80 {
            1int
        } else if unit < 0x800 {
            2
        } else {
            3
        }),
        utf8_len(seq![high, low]) == 4,
        forall|n: int|
            0 < n < utf8_len(seq![unit]) ==> !cuts(a + (seq![unit] + b), #[trigger] (utf8_len(a) + n))
                || 0xd800 <= unit < 0xe000,
        forall|n: int|
            0 < n < 4 ==> !cuts(a + (seq![high, low] + b), #[trigger] (utf8_len(a) + n)),
    decreases a.len(),
{
    reveal_with_fuel(utf8_len, 2);
    reveal_with_fuel(cuts, 2);
    let one = seq![unit];
    let two = seq![high, low];
    assert(one.skip(1) =~= Seq::<u16>::empty());
    assert(two.skip(2) =~= Seq::<u16>::empty());
    if a.len() == 0 {
        assert(a + b =~= b);
        assert(a + (one + b) =~= one + b);
        assert(a + (two + b) =~= two + b);
    } else {
        let rest = a.skip(1);
        assert forall|i: int| 0 <= i < rest.len() implies !(0xd800 <= #[trigger] rest[i]
            < 0xe000) by {
            assert(rest[i] == a[i + 1]);
        }
        law_bytes_are_counted_by_characters(rest, b, unit, high, low);
        assert(!(0xd800 <= a[0] < 0xe000));
        assert((a + b).skip(1) =~= rest + b);
        assert((a + (one + b)).skip(1) =~= rest + (one + b));
        assert((a + (two + b)).skip(1) =~= rest + (two + b));
        let w = width(a);
        assert forall|n: int| 0 < n < utf8_len(one) implies !cuts(
            a + (one + b),
            #[trigger] (utf8_len(a) + n),
        ) || 0xd800 <= unit < 0xe000 by {
            assert(utf8_len(rest) + n == utf8_len(a) + n - w);
        }
        assert forall|n: int| 0 < n < 4 implies !cuts(
            a + (two + b),
            #[trigger] (utf8_len(a) + n),
        ) by {
            assert(utf8_len(rest) + n == utf8_len(a) + n - w);
        }
    }
}

} // verus!
