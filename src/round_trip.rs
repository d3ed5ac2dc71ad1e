//! Writing a table into an image and reading it back gives the same table.
use vstd::prelude::*;

use crate::bytes::{
    from_le16, le16, le32, le64, lemma_le16_round_trip, lemma_le32_round_trip,
    lemma_le64_round_trip,
};
use crate::entry::{
    decode_entry, entry_bytes, lemma_units_bytes_len, units_at, units_bytes, EntryView,
};
use crate::error::Error;
use crate::gpt::{
    backup_header_offset, backup_of, boundaries_valid, decoded_entries, entries_fit, guids_unique,
    stored_array, alignment_of,
    has_last_sector, header_location, lemma_header_at, read_outcome, write_outcome, GPT,
};
use crate::header::{
    array_bytes, array_checksum, efi_signature, entry_offset, gpt_revision, header_bytes, header_decodes,
    header_error, image_after, lemma_entry_bytes_len, lemma_header_bytes_len,
    lemma_image_after_len, lemma_write_entries_len, lemma_zeroed_bytes, regions_fit, with_checksums,
    write_entries,
    GPTHeader, HEADER_SIZE,
};
use crate::image::write_at;
use crate::name::{decode_name, lemma_fitting_name, name_fits, name_units, NAME_UNITS};

verus! {

/// Bytes of `write_at`: inside the written range they come from `data`, elsewhere from `d`.
pub proof fn lemma_write_at_byte(d: Seq<u8>, o: int, data: Seq<u8>, k: int)
    requires
        0 <= o,
        o + data.len() <= d.len(),
        0 <= k < d.len(),
    ensures
        write_at(d, o, data).len() == d.len(),
        write_at(d, o, data)[k] == if o <= k < o + data.len() {
            data[k - o]
        } else {
            d[k]
        },
{
}

/// The two bytes of unit `i` in the little-endian bytes of a sequence of units.
proof fn lemma_units_bytes_index(u: Seq<u16>, i: int)
    requires
        0 <= i < u.len(),
    ensures
        units_bytes(u).len() == 2 * u.len(),
        units_bytes(u)[2 * i] == le16(u[i])[0],
        units_bytes(u)[2 * i + 1] == le16(u[i])[1],
    decreases u.len(),
{
    lemma_units_bytes_len(u);
    lemma_units_bytes_len(u.drop_last());
    if i < u.len() - 1 {
        lemma_units_bytes_index(u.drop_last(), i);
    }
}

/// A range holding `x + y` holds `x` then `y`.
pub proof fn lemma_peel(b: Seq<u8>, o: int, x: Seq<u8>, y: Seq<u8>)
    requires
        0 <= o,
        o + x.len() + y.len() <= b.len(),
        b.subrange(o, o + x.len() + y.len()) == x + y,
    ensures
        b.subrange(o, o + x.len()) == x,
        b.subrange(o + x.len(), o + x.len() + y.len()) == y,
{
    let w = b.subrange(o, o + x.len() + y.len());
    assert forall|j: int| 0 <= j < x.len() implies b[o + j] == x[j] by {
        assert(w[j] == b[o + j]);
        assert((x + y)[j] == x[j]);
    }
    assert forall|j: int| 0 <= j < y.len() implies b[o + x.len() + j] == y[j] by {
        assert(w[x.len() + j] == b[o + x.len() + j]);
        assert((x + y)[x.len() + j] == y[j]);
    }
    assert(b.subrange(o, o + x.len()) =~= x);
    assert(b.subrange(o + x.len(), o + x.len() + y.len()) =~= y);
}

/// A header record whose bytes are those of `h` decodes to `h`.
pub proof fn lemma_header_from_bytes(b: Seq<u8>, o: int, h: GPTHeader)
    requires
        0 <= o,
        o + HEADER_SIZE <= b.len(),
        b.subrange(o, o + 92) == header_bytes(h),
    ensures
        header_decodes(b, o, h),
{
    let part1 = h.signature@ + h.revision@;
    let part2 = part1 + le32(h.header_size);
    let part3 = part2 + le32(h.crc32_checksum);
    let part4 = part3 + h.reserved@;
    let part5 = part4 + le64(h.primary_lba);
    let part6 = part5 + le64(h.backup_lba);
    let part7 = part6 + le64(h.first_usable_lba);
    let part8 = part7 + le64(h.last_usable_lba);
    let part9 = part8 + h.disk_guid@;
    let part10 = part9 + le64(h.partition_entry_lba);
    let part11 = part10 + le32(h.number_of_partition_entries);
    let part12 = part11 + le32(h.size_of_partition_entry);
    lemma_peel(b, o, part12, le32(h.partition_entry_array_crc32));
    lemma_peel(b, o, part11, le32(h.size_of_partition_entry));
    lemma_peel(b, o, part10, le32(h.number_of_partition_entries));
    lemma_peel(b, o, part9, le64(h.partition_entry_lba));
    lemma_peel(b, o, part8, h.disk_guid@);
    lemma_peel(b, o, part7, le64(h.last_usable_lba));
    lemma_peel(b, o, part6, le64(h.first_usable_lba));
    lemma_peel(b, o, part5, le64(h.backup_lba));
    lemma_peel(b, o, part4, le64(h.primary_lba));
    lemma_peel(b, o, part3, h.reserved@);
    lemma_peel(b, o, part2, le32(h.crc32_checksum));
    lemma_peel(b, o, part1, le32(h.header_size));
    lemma_peel(b, o, h.signature@, h.revision@);
    lemma_le32_round_trip(h.header_size, b, o + 12);
    lemma_le32_round_trip(h.crc32_checksum, b, o + 16);
    lemma_le64_round_trip(h.primary_lba, b, o + 24);
    lemma_le64_round_trip(h.backup_lba, b, o + 32);
    lemma_le64_round_trip(h.first_usable_lba, b, o + 40);
    lemma_le64_round_trip(h.last_usable_lba, b, o + 48);
    lemma_le64_round_trip(h.partition_entry_lba, b, o + 72);
    lemma_le32_round_trip(h.number_of_partition_entries, b, o + 80);
    lemma_le32_round_trip(h.size_of_partition_entry, b, o + 84);
    lemma_le32_round_trip(h.partition_entry_array_crc32, b, o + 88);
}

/// An entry record whose bytes are those of `e` decodes to `e`, with its name as the name field
/// stores it.
pub proof fn lemma_entry_from_bytes(b: Seq<u8>, o: int, e: EntryView)
    requires
        0 <= o,
        o + 128 <= b.len(),
        e.type_guid.len() == 16,
        e.unique_guid.len() == 16,
        b.subrange(o, o + 128) == entry_bytes(e),
    ensures
        decode_entry(b, o) == (EntryView { name: decode_name(name_units(e.name)), ..e }),
{
    let eb = entry_bytes(e);
    let u = name_units(e.name);
    lemma_units_bytes_len(u);
    let part1 = e.type_guid + e.unique_guid;
    let part2 = part1 + le64(e.starting_lba);
    let part3 = part2 + le64(e.ending_lba);
    let part4 = part3 + le64(e.attribute_bits);
    lemma_peel(b, o, part4, units_bytes(u));
    lemma_peel(b, o, part3, le64(e.attribute_bits));
    lemma_peel(b, o, part2, le64(e.ending_lba));
    lemma_peel(b, o, part1, le64(e.starting_lba));
    lemma_peel(b, o, e.type_guid, e.unique_guid);
    lemma_le64_round_trip(e.starting_lba, b, o + 32);
    lemma_le64_round_trip(e.ending_lba, b, o + 40);
    lemma_le64_round_trip(e.attribute_bits, b, o + 48);
    let nb = b.subrange(o + 56, o + 128);
    assert forall|i: int| 0 <= i < NAME_UNITS implies #[trigger] units_at(b, o + 56, NAME_UNITS as nat)[i]
        == u[i] by {
        lemma_units_bytes_index(u, i);
        assert(nb[2 * i] == b[o + 56 + 2 * i]);
        assert(nb[2 * i + 1] == b[o + 56 + 2 * i + 1]);
        lemma_le16_round_trip(u[i]);
        assert(from_le16(b, o + 56 + 2 * i) == from_le16(le16(u[i]), 0));
    }
    assert(units_at(b, o + 56, NAME_UNITS as nat) =~= u);
}

/// The entry records of the array of `h` up to `k` lie inside `d` and do not overlap.
pub open spec fn entry_regions_ok(d: Seq<u8>, h: GPTHeader, sector_size: u64, p: Seq<EntryView>, k: nat) -> bool {
    &&& k <= p.len()
    &&& h.size_of_partition_entry >= 128
    &&& forall|i: int| 0 <= i < k ==> #[trigger] entry_offset(h, sector_size, i) + 128 <= d.len()
    &&& forall|i: int| 0 <= i < p.len() ==> (#[trigger] p[i]).type_guid.len() == 16
        && p[i].unique_guid.len() == 16
}

/// Writing entries leaves alone every byte outside their records.
pub proof fn lemma_entries_frame(d: Seq<u8>, h: GPTHeader, sector_size: u64, p: Seq<EntryView>, k: nat, a: int)
    requires
        entry_regions_ok(d, h, sector_size, p, k),
        0 <= a < d.len(),
        forall|i: int| 0 <= i < k ==> !(entry_offset(h, sector_size, i) <= a < #[trigger] entry_offset(h, sector_size, i) + 128),
    ensures
        write_entries(d, h, sector_size, p, k).len() == d.len(),
        write_entries(d, h, sector_size, p, k)[a] == d[a],
    decreases k,
{
    if k > 0 {
        lemma_entries_frame(d, h, sector_size, p, (k - 1) as nat, a);
        let prev = write_entries(d, h, sector_size, p, (k - 1) as nat);
        lemma_entry_bytes_len(p[k - 1]);
        assert(entry_offset(h, sector_size, k - 1) + 128 <= d.len());
        let (pe, ss, z) = (h.partition_entry_lba as int, sector_size as int, h.size_of_partition_entry as int);
        assert(pe * ss + (k - 1) * z >= 0) by (nonlinear_arith)
            requires
                k >= 1,
                pe >= 0,
                ss >= 0,
                z >= 0,
        ;
        lemma_write_at_byte(prev, entry_offset(h, sector_size, k - 1), entry_bytes(p[k - 1]), a);
    }
}

/// After writing the first `k` entries, the record of entry `j < k` holds its bytes.
pub proof fn lemma_entries_content(d: Seq<u8>, h: GPTHeader, sector_size: u64, p: Seq<EntryView>, k: nat, j: int, t: int)
    requires
        entry_regions_ok(d, h, sector_size, p, k),
        0 <= j < k,
        0 <= t < 128,
    ensures
        write_entries(d, h, sector_size, p, k).len() == d.len(),
        write_entries(d, h, sector_size, p, k)[entry_offset(h, sector_size, j) + t] == entry_bytes(p[j])[t],
    decreases k,
{
    let z = h.size_of_partition_entry as int;
    let prev = write_entries(d, h, sector_size, p, (k - 1) as nat);
    let last = entry_offset(h, sector_size, k - 1);
    lemma_entry_bytes_len(p[k - 1]);
    let pe = h.partition_entry_lba as int;
    let ss = sector_size as int;
    assert(pe * ss + (k - 1) * z >= 0) by (nonlinear_arith)
        requires
            k >= 1,
            pe >= 0,
            ss >= 0,
            z >= 0,
    ;
    if j < k - 1 {
        lemma_entries_content(d, h, sector_size, p, (k - 1) as nat, j, t);
        assert(j * z + 128 <= (k - 1) * z) by (nonlinear_arith)
            requires
                0 <= j < k - 1,
                z >= 128,
        ;
        assert(pe * ss + j * z >= 0) by (nonlinear_arith)
            requires
                j >= 0,
                pe >= 0,
                ss >= 0,
                z >= 0,
        ;
        lemma_write_at_byte(prev, last, entry_bytes(p[k - 1]), entry_offset(h, sector_size, j) + t);
    } else {
        assert forall|i: int| 0 <= i < p.len() implies #[trigger] entry_bytes(p[i]).len() == 128 by {
            lemma_entry_bytes_len(p[i]);
        }
        lemma_write_entries_len(d, h, sector_size, p, (k - 1) as nat);
        lemma_write_at_byte(prev, last, entry_bytes(p[k - 1]), last + t);
    }
}

/// An entry array takes 128 bytes per entry.
proof fn lemma_array_bytes_len(p: Seq<EntryView>)
    requires
        forall|i: int| 0 <= i < p.len() ==> (#[trigger] p[i]).type_guid.len() == 16
            && p[i].unique_guid.len() == 16,
    ensures
        array_bytes(p).len() == 128 * p.len(),
    decreases p.len(),
{
    if p.len() > 0 {
        assert forall|i: int| 0 <= i < p.drop_last().len() implies (#[trigger] p.drop_last()[i]).type_guid.len() == 16
            && p.drop_last()[i].unique_guid.len() == 16 by {
            assert(p.drop_last()[i] == p[i]);
        }
        lemma_array_bytes_len(p.drop_last());
        lemma_entry_bytes_len(p.last());
    }
}

/// Byte `128 * i + t` of an entry array is byte `t` of entry `i`.
proof fn lemma_array_bytes_index(p: Seq<EntryView>, i: int, t: int)
    requires
        0 <= i < p.len(),
        0 <= t < 128,
        forall|j: int| 0 <= j < p.len() ==> (#[trigger] p[j]).type_guid.len() == 16
            && p[j].unique_guid.len() == 16,
    ensures
        array_bytes(p)[128 * i + t] == entry_bytes(p[i])[t],
    decreases p.len(),
{
    let q = p.drop_last();
    assert forall|j: int| 0 <= j < q.len() implies (#[trigger] q[j]).type_guid.len() == 16
        && q[j].unique_guid.len() == 16 by {
        assert(q[j] == p[j]);
    }
    lemma_array_bytes_len(q);
    lemma_entry_bytes_len(p.last());
    if i < p.len() - 1 {
        lemma_array_bytes_index(q, i, t);
        assert(q[i] == p[i]);
    }
}

/// A range whose entry-sized pieces hold the bytes of the entries of `p` holds their array.
proof fn lemma_stored_array(b: Seq<u8>, base: int, p: Seq<EntryView>)
    requires
        0 <= base,
        base + 128 * p.len() <= b.len(),
        forall|j: int| 0 <= j < p.len() ==> (#[trigger] p[j]).type_guid.len() == 16
            && p[j].unique_guid.len() == 16,
        forall|i: int, t: int|
            0 <= i < p.len() && 0 <= t < 128 ==> b[base + 128 * i + t] == #[trigger] entry_bytes(
                p[i],
            )[t],
    ensures
        b.subrange(base, base + 128 * p.len()) == array_bytes(p),
{
    lemma_array_bytes_len(p);
    let w = b.subrange(base, base + 128 * p.len());
    assert forall|k: int| 0 <= k < 128 * p.len() implies #[trigger] w[k] == array_bytes(p)[k] by {
        let i = k / 128;
        let t = k % 128;
        assert(k == 128 * i + t);
        assert(0 <= i < p.len());
        lemma_array_bytes_index(p, i, t);
        lemma_entry_bytes_len(p[i]);
        assert(b[base + 128 * i + t] == entry_bytes(p[i])[t]);
        assert(w[k] == b[base + k]);
    }
    assert(w =~= array_bytes(p));
}

/// A table that can be written and read back unchanged from an image of `len` bytes: one that
/// `write_into` accepts, with a valid signature, revision and header size, its header at sector 1
/// and its entry array at sector 2, entry records of 128 bytes, the backup entry array after the
/// primary one and before the backup header, the backup header inside the image, and names of at
/// most 35 characters of the Basic Multilingual Plane without U+0000.
pub open spec fn round_trip_ready(g: GPT, len: int) -> bool {
    let h = g.header;
    let ss = g.sector_size as int;
    let n = h.number_of_partition_entries as int;
    let z = h.size_of_partition_entry as int;
    &&& g.wf()
    &&& guids_unique(g.entries())
    &&& boundaries_valid(g.entries(), h)
    &&& h.signature@ == efi_signature()
    &&& h.revision@ == gpt_revision()
    &&& h.header_size == 92
    &&& h.primary_lba == 1
    &&& h.partition_entry_lba == 2
    &&& ss >= 92
    &&& z == 128
    &&& h.last_usable_lba < u64::MAX
    &&& 2 * ss + n * z <= (h.last_usable_lba + 1) * ss
    &&& (h.last_usable_lba + 1) * ss + n * z <= h.backup_lba * ss
    &&& h.backup_lba * ss + 92 <= len
    &&& forall|i: int|
        0 <= i < n ==> name_fits(#[trigger] g.entries()[i].name)
}

/// The records of a ready table and of its other copy lie inside the image.
proof fn lemma_ready_fits(g: GPT, len: int)
    requires
        round_trip_ready(g, len),
    ensures
        regions_fit(g.header, g.sector_size, len),
        regions_fit(backup_of(g.header), g.sector_size, len),
{
    let gh = g.header;
    let si = g.sector_size as int;
    let n = gh.number_of_partition_entries as int;
    let z = gh.size_of_partition_entry as int;
    let last1 = (gh.last_usable_lba + 1) as int;
    let bl = gh.backup_lba as int;
    assert(si <= last1 * si) by (nonlinear_arith)
        requires
            2 * si <= last1 * si,
            si >= 92,
    ;
    if n > 0 {
        assert((n - 1) * z + 128 <= n * z) by (nonlinear_arith)
            requires
                n >= 1,
                z >= 128,
        ;
        assert(entry_offset(gh, g.sector_size, n - 1) == 2 * si + (n - 1) * z);
        assert(entry_offset(backup_of(gh), g.sector_size, n - 1) == last1 * si + (n - 1) * z);
    }
}

/// The image after writing a ready table's primary copy then its other copy, step by step.
pub open spec fn primary_header_image(g: GPT, d: Seq<u8>) -> Seq<u8> {
    write_at(
        d,
        g.sector_size as int,
        header_bytes(with_checksums(g.header, g.entries())),
    )
}

/// See `primary_header_image`: the primary entries written too.
pub open spec fn primary_image(g: GPT, d: Seq<u8>) -> Seq<u8> {
    write_entries(
        primary_header_image(g, d),
        with_checksums(g.header, g.entries()),
        g.sector_size,
        g.entries(),
        g.header.number_of_partition_entries as nat,
    )
}

/// See `primary_header_image`: the backup header written too.
pub open spec fn backup_header_image(g: GPT, d: Seq<u8>) -> Seq<u8> {
    write_at(
        primary_image(g, d),
        g.header.backup_lba * g.sector_size,
        header_bytes(with_checksums(backup_of(g.header), g.entries())),
    )
}

/// Facts on the intermediate images of writing a ready table.
proof fn lemma_ready_images(g: GPT, d: Seq<u8>)
    requires
        round_trip_ready(g, d.len() as int),
    ensures
        primary_header_image(g, d).len() == d.len(),
        primary_image(g, d).len() == d.len(),
        backup_header_image(g, d).len() == d.len(),
        entry_regions_ok(
            primary_header_image(g, d),
            with_checksums(g.header, g.entries()),
            g.sector_size,
            g.entries(),
            g.header.number_of_partition_entries as nat,
        ),
        entry_regions_ok(
            backup_header_image(g, d),
            with_checksums(backup_of(g.header), g.entries()),
            g.sector_size,
            g.entries(),
            g.header.number_of_partition_entries as nat,
        ),
        primary_image(g, d) == image_after(d, with_checksums(g.header, g.entries()), g.sector_size, g.entries()),
        write_entries(
            backup_header_image(g, d),
            with_checksums(backup_of(g.header), g.entries()),
            g.sector_size,
            g.entries(),
            g.header.number_of_partition_entries as nat,
        ).len() == d.len(),
        write_entries(
            backup_header_image(g, d),
            with_checksums(backup_of(g.header), g.entries()),
            g.sector_size,
            g.entries(),
            g.header.number_of_partition_entries as nat,
        ) == image_after(
            primary_image(g, d),
            with_checksums(backup_of(g.header), g.entries()),
            g.sector_size,
            g.entries(),
        ),
        forall|i: int|
            0 <= i < g.header.number_of_partition_entries ==> 2 * g.sector_size <= #[trigger] entry_offset(
                with_checksums(g.header, g.entries()),
                g.sector_size,
                i,
            ) && entry_offset(with_checksums(g.header, g.entries()), g.sector_size, i) + 128 <= (
            g.header.last_usable_lba + 1) * g.sector_size,
        forall|i: int|
            0 <= i < g.header.number_of_partition_entries ==> (g.header.last_usable_lba + 1)
                * g.sector_size <= #[trigger] entry_offset(
                with_checksums(backup_of(g.header), g.entries()),
                g.sector_size,
                i,
            ) && entry_offset(with_checksums(backup_of(g.header), g.entries()), g.sector_size, i)
                + 128 <= g.header.backup_lba * g.sector_size,
{
    let p = g.entries();
    let gh = g.header;
    let ss = g.sector_size;
    let si = ss as int;
    let n = gh.number_of_partition_entries as int;
    let z = gh.size_of_partition_entry as int;
    let last1 = (gh.last_usable_lba + 1) as int;
    let hp = with_checksums(gh, p);
    let hb = with_checksums(backup_of(gh), p);
    lemma_ready_fits(g, d.len() as int);
    assert forall|i: int| 0 <= i < n implies 2 * si <= #[trigger] entry_offset(hp, ss, i)
        && entry_offset(hp, ss, i) + 128 <= 2 * si + n * z by {
        assert(i * z + 128 <= n * z && i * z >= 0) by (nonlinear_arith)
            requires
                0 <= i < n,
                z >= 128,
        ;
    }
    assert forall|i: int| 0 <= i < n implies last1 * si <= #[trigger] entry_offset(hb, ss, i)
        && entry_offset(hb, ss, i) + 128 <= last1 * si + n * z by {
        assert(i * z + 128 <= n * z && i * z >= 0) by (nonlinear_arith)
            requires
                0 <= i < n,
                z >= 128,
        ;
    }
    assert forall|i: int| 0 <= i < p.len() implies (#[trigger] p[i]).type_guid.len() == 16
        && p[i].unique_guid.len() == 16 by {
        assert(p[i] == g.partitions@[i]@);
    }
    lemma_header_bytes_len(hp);
    lemma_header_bytes_len(hb);
    assert(si <= last1 * si) by (nonlinear_arith)
        requires
            2 * si <= last1 * si,
            si >= 92,
    ;
    lemma_entries_frame(primary_header_image(g, d), hp, ss, p, n as nat, 0);
    lemma_entries_frame(backup_header_image(g, d), hb, ss, p, n as nat, 0);
}

#[verifier::rlimit(60)]
/// Round trip: writing a table with `write_into` (which gives `r`, the header `h` and the image
/// `d2`) and reading the image back with `read_from` (which gives `back`) yields the written
/// header and the same partitions.
pub proof fn lemma_round_trip(
    g: GPT,
    d: Seq<u8>,
    r: Result<GPTHeader, Error>,
    h: GPTHeader,
    d2: Seq<u8>,
    back: Result<GPT, Error>,
)
    requires
        round_trip_ready(g, d.len() as int),
        write_outcome(g, d, r, h, d2),
        read_outcome(d2, g.sector_size, back),
    ensures
        r is Ok,
        back is Ok,
        back->Ok_0.header == h,
        back->Ok_0.entries() == g.entries(),
        back->Ok_0.sector_size == g.sector_size,
        back->Ok_0.align == alignment_of(h, g.entries()),
{
    let p = g.entries();
    let ss = g.sector_size;
    let si = ss as int;
    let n = g.header.number_of_partition_entries as int;
    let hp = with_checksums(g.header, p);
    lemma_ready_fits(g, d.len() as int);
    lemma_ready_images(g, d);
    assert(r is Ok && h == hp);
    lemma_rt_header(g, d, d2);
    lemma_header_from_bytes(d2, si, hp);
    lemma_zeroed_bytes(d2, si, hp);
    assert(header_error(d2, si) is None);
    lemma_header_at(d2, si, hp);
    assert(header_location(d2, ss) == Some(si));
    assert(entries_fit(d2, hp, ss));
    assert forall|i: int| 0 <= i < n implies #[trigger] decoded_entries(d2, hp, ss)[i] == p[i] by {
        lemma_rt_entry(g, d, d2, i);
        assert(p[i].type_guid.len() == 16 && p[i].unique_guid.len() == 16) by {
            assert(p[i] == g.partitions@[i]@);
        }
        lemma_entry_from_bytes(d2, entry_offset(hp, ss, i), p[i]);
        lemma_fitting_name(p[i].name);
    }
    assert(decoded_entries(d2, hp, ss) =~= p);
    assert forall|j: int| 0 <= j < p.len() implies (#[trigger] p[j]).type_guid.len() == 16
        && p[j].unique_guid.len() == 16 by {
        assert(p[j] == g.partitions@[j]@);
    }
    assert forall|i: int, t: int| 0 <= i < p.len() && 0 <= t < 128 implies d2[2 * si + 128 * i + t]
        == #[trigger] entry_bytes(p[i])[t] by {
        lemma_rt_entry(g, d, d2, i);
        let off = entry_offset(hp, ss, i);
        assert(d2.subrange(off, off + 128)[t] == d2[off + t]);
    }
    lemma_stored_array(d2, 2 * si, p);
    assert(stored_array(d2, hp, ss) == array_bytes(p));
}

#[verifier::rlimit(60)]
/// After writing a ready table, the primary header record holds the primary header's bytes.
proof fn lemma_rt_header(g: GPT, d: Seq<u8>, d2: Seq<u8>)
    requires
        round_trip_ready(g, d.len() as int),
        d2 == write_entries(
            backup_header_image(g, d),
            with_checksums(backup_of(g.header), g.entries()),
            g.sector_size,
            g.entries(),
            g.header.number_of_partition_entries as nat,
        ),
    ensures
        d2.subrange(g.sector_size as int, g.sector_size + 92) == header_bytes(
            with_checksums(g.header, g.entries()),
        ),
{
    let p = g.entries();
    let ss = g.sector_size;
    let si = ss as int;
    let n = g.header.number_of_partition_entries as nat;
    let hp = with_checksums(g.header, p);
    let hb = with_checksums(backup_of(g.header), p);
    let bl = g.header.backup_lba as int;
    lemma_ready_fits(g, d.len() as int);
    lemma_ready_images(g, d);
    lemma_header_bytes_len(hp);
    lemma_header_bytes_len(hb);
    assert(si + 92 <= bl * si);
    assert forall|t: int| 0 <= t < 92 implies d2[si + t] == header_bytes(hp)[t] by {
        lemma_write_at_byte(d, si, header_bytes(hp), si + t);
        lemma_entries_frame(primary_header_image(g, d), hp, ss, p, n, si + t);
        lemma_write_at_byte(primary_image(g, d), bl * si, header_bytes(hb), si + t);
        lemma_entries_frame(backup_header_image(g, d), hb, ss, p, n, si + t);
    }
    assert(d2.subrange(si, si + 92) =~= header_bytes(hp));
}

#[verifier::rlimit(60)]
/// After writing a ready table, each primary entry record holds its entry's bytes.
proof fn lemma_rt_entry(g: GPT, d: Seq<u8>, d2: Seq<u8>, i: int)
    requires
        round_trip_ready(g, d.len() as int),
        d2 == write_entries(
            backup_header_image(g, d),
            with_checksums(backup_of(g.header), g.entries()),
            g.sector_size,
            g.entries(),
            g.header.number_of_partition_entries as nat,
        ),
        0 <= i < g.header.number_of_partition_entries,
    ensures
        d2.subrange(
            entry_offset(with_checksums(g.header, g.entries()), g.sector_size, i),
            entry_offset(with_checksums(g.header, g.entries()), g.sector_size, i) + 128,
        ) == entry_bytes(g.entries()[i]),
{
    let p = g.entries();
    let ss = g.sector_size;
    let si = ss as int;
    let n = g.header.number_of_partition_entries as nat;
    let hp = with_checksums(g.header, p);
    let hb = with_checksums(backup_of(g.header), p);
    let bl = g.header.backup_lba as int;
    lemma_ready_fits(g, d.len() as int);
    lemma_ready_images(g, d);
    lemma_header_bytes_len(hb);
    let off = entry_offset(hp, ss, i);
    assert(off + 128 <= (g.header.last_usable_lba + 1) * ss);
    assert forall|t: int| 0 <= t < 128 implies d2[off + t] == entry_bytes(p[i])[t] by {
        lemma_entries_content(primary_header_image(g, d), hp, ss, p, n, i, t);
        lemma_write_at_byte(primary_image(g, d), bl * si, header_bytes(hb), off + t);
        lemma_entries_frame(backup_header_image(g, d), hb, ss, p, n, off + t);
    }
    assert(p[i].type_guid.len() == 16 && p[i].unique_guid.len() == 16) by {
        assert(p[i] == g.partitions@[i]@);
    }
    lemma_entry_bytes_len(p[i]);
    assert(d2.subrange(off, off + 128) =~= entry_bytes(p[i]));
}

#[verifier::rlimit(60)]
/// After writing a ready table, the backup header record holds the backup header's bytes and
/// each backup entry record holds its entry's bytes.
proof fn lemma_rt_backup(g: GPT, d: Seq<u8>, d2: Seq<u8>, i: int)
    requires
        round_trip_ready(g, d.len() as int),
        d2 == write_entries(
            backup_header_image(g, d),
            with_checksums(backup_of(g.header), g.entries()),
            g.sector_size,
            g.entries(),
            g.header.number_of_partition_entries as nat,
        ),
        0 <= i < g.header.number_of_partition_entries,
    ensures
        d2.subrange(g.header.backup_lba * g.sector_size, g.header.backup_lba * g.sector_size + 92)
            == header_bytes(with_checksums(backup_of(g.header), g.entries())),
        d2.subrange(
            entry_offset(with_checksums(backup_of(g.header), g.entries()), g.sector_size, i),
            entry_offset(with_checksums(backup_of(g.header), g.entries()), g.sector_size, i) + 128,
        ) == entry_bytes(g.entries()[i]),
{
    let p = g.entries();
    let ss = g.sector_size;
    let n = g.header.number_of_partition_entries as nat;
    let hb = with_checksums(backup_of(g.header), p);
    let bo = g.header.backup_lba * ss;
    lemma_ready_fits(g, d.len() as int);
    lemma_ready_images(g, d);
    lemma_header_bytes_len(hb);
    assert forall|t: int| 0 <= t < 92 implies d2[bo + t] == header_bytes(hb)[t] by {
        lemma_write_at_byte(primary_image(g, d), bo, header_bytes(hb), bo + t);
        lemma_entries_frame(backup_header_image(g, d), hb, ss, p, n, bo + t);
    }
    assert(d2.subrange(bo, bo + 92) =~= header_bytes(hb));
    let off = entry_offset(hb, ss, i);
    assert forall|t: int| 0 <= t < 128 implies d2[off + t] == entry_bytes(p[i])[t] by {
        lemma_entries_content(backup_header_image(g, d), hb, ss, p, n, i, t);
    }
    assert(p[i].type_guid.len() == 16 && p[i].unique_guid.len() == 16) by {
        assert(p[i] == g.partitions@[i]@);
    }
    lemma_entry_bytes_len(p[i]);
    assert(d2.subrange(off, off + 128) =~= entry_bytes(p[i]));
}

/// Two headers that differ only in their checksums get the same checksums.
proof fn lemma_with_checksums_ignores_checksums(x: GPTHeader, y: GPTHeader, p: Seq<EntryView>)
    requires
        x == (GPTHeader {
            crc32_checksum: x.crc32_checksum,
            partition_entry_array_crc32: x.partition_entry_array_crc32,
            ..y
        }),
    ensures
        with_checksums(x, p) == with_checksums(y, p),
{
    let x1 = GPTHeader { partition_entry_array_crc32: array_checksum(p), ..x };
    let y1 = GPTHeader { partition_entry_array_crc32: array_checksum(p), ..y };
    assert(GPTHeader { crc32_checksum: 0, ..x1 } == GPTHeader { crc32_checksum: 0, ..y1 });
}

#[verifier::rlimit(60)]
/// Backup recovery: after a table is written, an image whose primary header record alone was
/// damaged (so that it cannot be accepted) still reads, from the backup copy: the table read
/// has the backup header that was written and the same partitions. Writing that table again
/// gives back, as its other copy, the primary header first written.
pub proof fn lemma_backup_recovery(
    g: GPT,
    d: Seq<u8>,
    r: Result<GPTHeader, Error>,
    h: GPTHeader,
    d2: Seq<u8>,
    d3: Seq<u8>,
    back: Result<GPT, Error>,
)
    requires
        round_trip_ready(g, d.len() as int),
        g.header.number_of_partition_entries >= 1,
        g.header.backup_lba == d.len() as int / (g.sector_size as int) - 1,
        write_outcome(g, d, r, h, d2),
        d3.len() == d2.len(),
        forall|k: int|
            0 <= k < d2.len() && !(g.sector_size <= k < g.sector_size + 92) ==> #[trigger] d3[k]
                == d2[k],
        header_error(d3, g.sector_size as int) is Some,
        read_outcome(d3, g.sector_size, back),
    ensures
        r is Ok,
        back is Ok,
        back->Ok_0.header == r->Ok_0,
        back->Ok_0.entries() == g.entries(),
        with_checksums(backup_of(back->Ok_0.header), g.entries()) == h,
{
    let p = g.entries();
    let ss = g.sector_size;
    let si = ss as int;
    let n = g.header.number_of_partition_entries as int;
    let hp = with_checksums(g.header, p);
    let hb = with_checksums(backup_of(g.header), p);
    let bo = g.header.backup_lba * si;
    let z = g.header.size_of_partition_entry as int;
    let last1 = (g.header.last_usable_lba + 1) as int;
    lemma_ready_fits(g, d.len() as int);
    lemma_ready_images(g, d);
    assert(r is Ok && h == hp && r->Ok_0 == hb);
    lemma_rt_backup(g, d, d2, 0);
    assert(si + 92 <= bo);
    assert forall|t: int| 0 <= t < 92 implies #[trigger] d3[bo + t] == d2[bo + t] by {}
    assert(d3.subrange(bo, bo + 92) =~= d2.subrange(bo, bo + 92));
    lemma_header_from_bytes(d3, bo, hb);
    lemma_zeroed_bytes(d3, bo, hb);
    assert(header_error(d3, bo) is None);
    lemma_header_at(d3, bo, hb);
    assert(has_last_sector(d3.len() as int, ss));
    assert(backup_header_offset(d3.len() as int, ss) == bo);
    assert(header_location(d3, ss) == Some(bo));
    assert forall|i: int| 0 <= i < n implies #[trigger] decoded_entries(d3, hb, ss)[i] == p[i] by {
        lemma_rt_backup(g, d, d2, i);
        let off = entry_offset(hb, ss, i);
        assert(last1 * si <= off && off + 128 <= bo);
        assert forall|t: int| 0 <= t < 128 implies #[trigger] d3[off + t] == d2[off + t] by {}
        assert(d3.subrange(off, off + 128) =~= d2.subrange(off, off + 128));
        assert(p[i].type_guid.len() == 16 && p[i].unique_guid.len() == 16) by {
            assert(p[i] == g.partitions@[i]@);
        }
        lemma_entry_from_bytes(d3, off, p[i]);
        lemma_fitting_name(p[i].name);
    }
    assert(entries_fit(d3, hb, ss));
    assert(decoded_entries(d3, hb, ss) =~= p);
    assert forall|j: int| 0 <= j < p.len() implies (#[trigger] p[j]).type_guid.len() == 16
        && p[j].unique_guid.len() == 16 by {
        assert(p[j] == g.partitions@[j]@);
    }
    assert forall|i: int, t: int| 0 <= i < p.len() && 0 <= t < 128 implies d3[last1 * si + 128 * i
        + t] == #[trigger] entry_bytes(p[i])[t] by {
        lemma_rt_backup(g, d, d2, i);
        let off = entry_offset(hb, ss, i);
        assert(last1 * si <= off && off + 128 <= bo);
        assert(d2.subrange(off, off + 128)[t] == d2[off + t]);
        assert(d3[off + t] == d2[off + t]);
    }
    lemma_stored_array(d3, last1 * si, p);
    assert(stored_array(d3, hb, ss) == array_bytes(p));
    assert((n - 1) * z + 128 <= n * z && n * z >= 128) by (nonlinear_arith)
        requires
            n >= 1,
            z >= 128,
    ;
    assert(2 * si < last1 * si);
    assert(last1 != 2) by (nonlinear_arith)
        requires
            2 * si < last1 * si,
            si > 0,
    ;
    lemma_with_checksums_ignores_checksums(backup_of(hb), g.header, p);
}

#[verifier::rlimit(60)]
/// Reading an image right after a primary copy (at sector 1, entries from sector 2) was written
/// into it gives that copy's header and entries.
proof fn lemma_read_after_primary_write(x: Seq<u8>, h0: GPTHeader, ss: u64, p: Seq<EntryView>, back: Result<GPT, Error>)
    requires
        h0.signature@ == efi_signature(),
        h0.revision@ == gpt_revision(),
        h0.header_size == 92,
        h0.primary_lba == 1,
        h0.partition_entry_lba == 2,
        ss >= 92,
        h0.size_of_partition_entry == 128,
        h0.number_of_partition_entries == p.len(),
        2 * ss + h0.number_of_partition_entries * h0.size_of_partition_entry <= x.len(),
        forall|i: int| 0 <= i < p.len() ==> (#[trigger] p[i]).type_guid.len() == 16
            && p[i].unique_guid.len() == 16,
        forall|i: int| 0 <= i < p.len() ==> name_fits(#[trigger] p[i].name),
        read_outcome(image_after(x, with_checksums(h0, p), ss, p), ss, back),
    ensures
        back is Ok,
        back->Ok_0.header == with_checksums(h0, p),
        back->Ok_0.entries() == p,
{
    let hw = with_checksums(h0, p);
    let si = ss as int;
    let n = h0.number_of_partition_entries as int;
    let z = h0.size_of_partition_entry as int;
    let x0 = write_at(x, si, header_bytes(hw));
    let x2 = image_after(x, hw, ss, p);
    lemma_header_bytes_len(hw);
    assert forall|i: int| 0 <= i < n implies 2 * si <= #[trigger] entry_offset(hw, ss, i)
        && entry_offset(hw, ss, i) + 128 <= 2 * si + n * z by {
        assert(i * z + 128 <= n * z && i * z >= 0) by (nonlinear_arith)
            requires
                0 <= i < n,
                z >= 128,
        ;
    }
    assert(x0.len() == x.len());
    assert(entry_regions_ok(x0, hw, ss, p, n as nat));
    lemma_entries_frame(x0, hw, ss, p, n as nat, 0);
    assert forall|t: int| 0 <= t < 92 implies x2[si + t] == header_bytes(hw)[t] by {
        lemma_write_at_byte(x, si, header_bytes(hw), si + t);
        lemma_entries_frame(x0, hw, ss, p, n as nat, si + t);
    }
    assert(x2.subrange(si, si + 92) =~= header_bytes(hw));
    lemma_header_from_bytes(x2, si, hw);
    lemma_zeroed_bytes(x2, si, hw);
    assert(header_error(x2, si) is None);
    lemma_header_at(x2, si, hw);
    assert(header_location(x2, ss) == Some(si));
    assert(entries_fit(x2, hw, ss));
    assert forall|i: int| 0 <= i < n implies #[trigger] decoded_entries(x2, hw, ss)[i] == p[i] by {
        let off = entry_offset(hw, ss, i);
        assert forall|t: int| 0 <= t < 128 implies x2[off + t] == entry_bytes(p[i])[t] by {
            lemma_entries_content(x0, hw, ss, p, n as nat, i, t);
        }
        lemma_entry_bytes_len(p[i]);
        assert(x2.subrange(off, off + 128) =~= entry_bytes(p[i]));
        lemma_entry_from_bytes(x2, off, p[i]);
        lemma_fitting_name(p[i].name);
    }
    assert(decoded_entries(x2, hw, ss) =~= p);
    assert forall|i: int, t: int| 0 <= i < p.len() && 0 <= t < 128 implies x2[2 * si + 128 * i + t]
        == #[trigger] entry_bytes(p[i])[t] by {
        lemma_entries_content(x0, hw, ss, p, n as nat, i, t);
    }
    lemma_stored_array(x2, 2 * si, p);
    assert(stored_array(x2, hw, ss) == array_bytes(p));
}

#[verifier::rlimit(60)]
/// Repair: writing the table recovered from the backup copy of a ready table `g` (its header is
/// the backup header that was written, its entries those of `g`) into any image of the same size
/// and reading that image back gives the primary header first written and the same partitions.
pub proof fn lemma_repair(
    g: GPT,
    recovered: GPT,
    d: Seq<u8>,
    r: Result<GPTHeader, Error>,
    h: GPTHeader,
    d2: Seq<u8>,
    back: Result<GPT, Error>,
)
    requires
        round_trip_ready(g, d.len() as int),
        g.header.number_of_partition_entries >= 1,
        recovered.wf(),
        recovered.header == with_checksums(backup_of(g.header), g.entries()),
        recovered.entries() == g.entries(),
        recovered.sector_size == g.sector_size,
        write_outcome(recovered, d, r, h, d2),
        read_outcome(d2, g.sector_size, back),
    ensures
        r is Ok,
        r->Ok_0 == with_checksums(g.header, g.entries()),
        back is Ok,
        back->Ok_0.header == with_checksums(g.header, g.entries()),
        back->Ok_0.entries() == g.entries(),
        back->Ok_0.align == alignment_of(with_checksums(g.header, g.entries()), g.entries()),
{
    let p = g.entries();
    let gh = g.header;
    let hb = recovered.header;
    let si = g.sector_size as int;
    let n = gh.number_of_partition_entries as int;
    let z = gh.size_of_partition_entry as int;
    let last1 = (gh.last_usable_lba + 1) as int;
    lemma_ready_fits(g, d.len() as int);
    assert((n - 1) * z + 128 <= n * z && n * z >= 128) by (nonlinear_arith)
        requires
            n >= 1,
            z >= 128,
    ;
    assert(last1 != 2) by (nonlinear_arith)
        requires
            2 * si + n * z <= last1 * si,
            n * z >= 128,
            si > 0,
    ;
    lemma_with_checksums_ignores_checksums(backup_of(hb), gh, p);
    lemma_with_checksums_ignores_checksums(hb, backup_of(gh), p);
    assert(backup_of(hb) == (GPTHeader {
        crc32_checksum: backup_of(hb).crc32_checksum,
        partition_entry_array_crc32: backup_of(hb).partition_entry_array_crc32,
        ..gh
    }));
    assert(regions_fit(hb, g.sector_size, d.len() as int));
    assert(regions_fit(backup_of(hb), g.sector_size, d.len() as int));
    assert(r is Ok);
    let hp = with_checksums(backup_of(hb), p);
    let d1 = image_after(d, with_checksums(hb, p), g.sector_size, p);
    lemma_image_after_len(d, with_checksums(hb, p), g.sector_size, p);
    assert forall|i: int| 0 <= i < p.len() implies (#[trigger] p[i]).type_guid.len() == 16
        && p[i].unique_guid.len() == 16 by {
        assert(p[i] == g.partitions@[i]@);
    }
    assert(2 * si + n * z <= d.len());
    lemma_read_after_primary_write(d1, backup_of(hb), g.sector_size, p, back);
}

} // verus!
