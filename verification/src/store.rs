//! The append-only key store: a headerless sequence of records, each a
//! 1-byte name length, a 4-byte big-endian secret length, the name bytes
//! and the secret bytes. Records are immutable once appended; lookup scans
//! forward from the start and returns the first record whose name matches,
//! skipping mismatched records by their declared lengths without reading
//! their contents.

use vstd::prelude::*;

verus! {

/// Failures of the key store.
#[derive(Debug, Clone, Copy, PartialEq, Eq, Structural)]
pub enum StoreError {
    /// The name to append does not fit the 1-byte length field.
    NameTooLong,
    /// The scan reached the end of the store without finding the name: a
    /// normal negative result.
    NotFound,
    /// A record's declared length runs past the end of the store.
    TruncatedStore,
}

/// One record read back from the store.
#[derive(Debug)]
pub struct Record {
    pub name: Vec<u8>,
    pub secret: Vec<u8>,
}

/// The value of a 4-byte big-endian length field.
pub open spec fn u32_from_be(b0: u8, b1: u8, b2: u8, b3: u8) -> u32 {
    ((b0 as u32) << 24) | ((b1 as u32) << 16) | ((b2 as u32) << 8) | (b3 as u32)
}

/// A length field as its 4 big-endian bytes.
pub open spec fn u32_be_bytes(n: u32) -> Seq<u8> {
    seq![
        ((n >> 24) & 0xff) as u8,
        ((n >> 16) & 0xff) as u8,
        ((n >> 8) & 0xff) as u8,
        (n & 0xff) as u8,
    ]
}

/// One record as laid out in the store: 1 byte of name length, 4 bytes of
/// big-endian secret length, the name, the secret.
pub open spec fn record_bytes(name: Seq<u8>, secret: Seq<u8>) -> Seq<u8> {
    seq![name.len() as u8] + u32_be_bytes(secret.len() as u32) + name + secret
}

/// What a forward scan for `name` from position `pos` returns. A header
/// that cannot be read whole is the normal end of an unsuccessful search;
/// a matching record whose name or secret runs past the end is a truncated
/// store; a mismatched record whose declared lengths run past the end
/// leaves the cursor beyond the data, where the next header read fails as
/// not found.
pub open spec fn find_from(data: Seq<u8>, pos: int, name: Seq<u8>) -> Result<Seq<u8>, StoreError>
    decreases data.len() - pos,
{
    if pos < 0 || pos + 5 > data.len() {
        Err(StoreError::NotFound)
    } else {
        let name_len = data[pos] as int;
        let secret_len = u32_from_be(data[pos + 1], data[pos + 2], data[pos + 3], data[pos + 4]) as int;
        let name_start = pos + 5;
        let secret_start = name_start + name_len;
        let rec_end = secret_start + secret_len;
        if name_len != name.len() {
            if rec_end > data.len() {
                Err(StoreError::NotFound)
            } else {
                find_from(data, rec_end, name)
            }
        } else if secret_start > data.len() {
            Err(StoreError::TruncatedStore)
        } else if data.subrange(name_start, secret_start) == name {
            if rec_end > data.len() {
                Err(StoreError::TruncatedStore)
            } else {
                Ok(data.subrange(secret_start, rec_end))
            }
        } else {
            if rec_end > data.len() {
                Err(StoreError::NotFound)
            } else {
                find_from(data, rec_end, name)
            }
        }
    }
}

/// What looking `name` up in a store image returns.
pub open spec fn spec_find(data: Seq<u8>, name: Seq<u8>) -> Result<Seq<u8>, StoreError> {
    find_from(data, 0, name)
}

/// The records of a store image from position `pos` on: every complete
/// record in order. The scan ends cleanly exactly at a record boundary;
/// anything shorter mid-record is a truncated store.
pub open spec fn scan_from(data: Seq<u8>, pos: int) -> Result<
    Seq<(Seq<u8>, Seq<u8>)>,
    StoreError,
>
    decreases data.len() - pos,
{
    if pos == data.len() {
        Ok(Seq::empty())
    } else if pos < 0 || pos + 5 > data.len() {
        Err(StoreError::TruncatedStore)
    } else {
        let name_len = data[pos] as int;
        let secret_len = u32_from_be(data[pos + 1], data[pos + 2], data[pos + 3], data[pos + 4]) as int;
        let name_start = pos + 5;
        let secret_start = name_start + name_len;
        let rec_end = secret_start + secret_len;
        if rec_end > data.len() {
            Err(StoreError::TruncatedStore)
        } else {
            match scan_from(data, rec_end) {
                Ok(rest) => Ok(
                    seq![
                        (
                            data.subrange(name_start, secret_start),
                            data.subrange(secret_start, rec_end),
                        ),
                    ] + rest,
                ),
                Err(e) => Err(e),
            }
        }
    }
}

/// What listing every record of a store image returns.
pub open spec fn spec_scan(data: Seq<u8>) -> Result<Seq<(Seq<u8>, Seq<u8>)>, StoreError> {
    scan_from(data, 0)
}

/// Reads a 4-byte big-endian length field.
fn read_be_u32(b0: u8, b1: u8, b2: u8, b3: u8) -> (n: u32)
    ensures
        n == u32_from_be(b0, b1, b2, b3),
{
    ((b0 as u32) << 24) | ((b1 as u32) << 16) | ((b2 as u32) << 8) | (b3 as u32)
}

/// Serializes one record as the store lays it out. Fails with NameTooLong
/// exactly when the encoded name exceeds 255 bytes, before anything is
/// written.
pub fn encode_record(name: &Vec<u8>, secret: &Vec<u8>) -> (r: Result<Vec<u8>, StoreError>)
    requires
        secret@.len() <= u32::MAX,
    ensures
        match r {
            Ok(v) => name@.len() <= 255 && v@ == record_bytes(name@, secret@),
            Err(e) => e == StoreError::NameTooLong && name@.len() > 255,
        },
{
    if name.len() > 255 {
        return Err(StoreError::NameTooLong);
    }
    let slen = secret.len() as u32;
    proof {
        assert((slen >> 24) & 0xff < 256 && (slen >> 16) & 0xff < 256 && (slen >> 8) & 0xff < 256
            && slen & 0xff < 256) by (bit_vector);
    }
    let mut out: Vec<u8> = Vec::new();
    out.push(name.len() as u8);
    out.push(((slen >> 24) & 0xff) as u8);
    out.push(((slen >> 16) & 0xff) as u8);
    out.push(((slen >> 8) & 0xff) as u8);
    out.push((slen & 0xff) as u8);
    let mut n = vstd::slice::slice_to_vec(name.as_slice());
    out.append(&mut n);
    let mut s = vstd::slice::slice_to_vec(secret.as_slice());
    out.append(&mut s);
    proof {
        assert(out@ =~= record_bytes(name@, secret@));
    }
    Ok(out)
}

/// Appends one record to a store image: the record's bytes go at the end
/// and nothing else moves. Fails with NameTooLong exactly when the name
/// exceeds 255 bytes, leaving the store unchanged.
pub fn append(data: &mut Vec<u8>, name: &Vec<u8>, secret: &Vec<u8>) -> (r: Result<(), StoreError>)
    requires
        secret@.len() <= u32::MAX,
    ensures
        match r {
            Ok(()) => name@.len() <= 255 && final(data)@ == old(data)@ + record_bytes(
                name@,
                secret@,
            ),
            Err(e) => e == StoreError::NameTooLong && name@.len() > 255 && final(data)@ == old(
                data,
            )@,
        },
{
    match encode_record(name, secret) {
        Ok(mut rec) => {
            data.append(&mut rec);
            Ok(())
        },
        Err(e) => Err(e),
    }
}

/// The bytes at `start` equal `name`, byte for byte.
fn bytes_equal(data: &Vec<u8>, start: usize, name: &Vec<u8>) -> (r: bool)
    requires
        start + name@.len() <= data@.len(),
    ensures
        r == (data@.subrange(start as int, start as int + name@.len() as int) == name@),
{
    let ghost sub = data@.subrange(start as int, start as int + name@.len() as int);
    let dlen = data.len();
    let mut j: usize = 0;
    while j < name.len()
        invariant
            j <= name@.len(),
            dlen == data@.len(),
            start + name@.len() <= data@.len(),
            sub == data@.subrange(start as int, start as int + name@.len() as int),
            forall|t: int| 0 <= t < j ==> data@[start + t] == name@[t],
        decreases name@.len() - j,
    {
        if data[start + j] != name[j] {
            proof {
                assert(sub[j as int] != name@[j as int]);
            }
            return false;
        }
        j = j + 1;
    }
    proof {
        assert(sub =~= name@);
    }
    true
}

/// Looks a name up by a forward scan from the start of the store image and
/// returns the secret of the first record whose name matches. A record
/// whose name length differs is skipped by its declared lengths without
/// reading its contents. Reaching the end before a whole header can be
/// read is NotFound; a matching record whose contents run past the end is
/// a truncated store.
pub fn find_by_name(data: &Vec<u8>, name: &Vec<u8>) -> (r: Result<Vec<u8>, StoreError>)
    ensures
        match r {
            Ok(v) => spec_find(data@, name@) == Ok::<Seq<u8>, StoreError>(v@),
            Err(e) => spec_find(data@, name@) == Err::<Seq<u8>, StoreError>(e),
        },
{
    let len = data.len();
    let mut pos: usize = 0;
    loop
        invariant
            pos <= len,
            len == data@.len(),
            find_from(data@, pos as int, name@) == spec_find(data@, name@),
        decreases len - pos,
    {
        if len - pos < 5 {
            return Err(StoreError::NotFound);
        }
        let name_len = data[pos] as usize;
        let secret_len = read_be_u32(data[pos + 1], data[pos + 2], data[pos + 3], data[pos + 4]);
        let name_start = pos + 5;
        let rem = (len - name_start) as u64;
        let needed = name_len as u64 + secret_len as u64;
        if name_len != name.len() {
            if needed > rem {
                return Err(StoreError::NotFound);
            }
            pos = name_start + name_len + secret_len as usize;
            continue;
        }
        if name_len as u64 > rem {
            return Err(StoreError::TruncatedStore);
        }
        if !bytes_equal(data, name_start, name) {
            if needed > rem {
                return Err(StoreError::NotFound);
            }
            pos = name_start + name_len + secret_len as usize;
            continue;
        }
        let secret_start = name_start + name_len;
        if needed > rem {
            return Err(StoreError::TruncatedStore);
        }
        let secret = vstd::slice::slice_to_vec(
            vstd::slice::slice_subrange(
                data.as_slice(),
                secret_start,
                secret_start + secret_len as usize,
            ),
        );
        return Ok(secret);
    }
}

/// Lists every record of the store image in file order. The walk ends
/// cleanly exactly at a record boundary; a header or record that runs past
/// the end is a truncated store.
pub fn scan_all(data: &Vec<u8>) -> (r: Result<Vec<Record>, StoreError>)
    ensures
        match r {
            Ok(v) => {
                &&& spec_scan(data@) matches Ok(recs)
                &&& v@.len() == recs.len()
                &&& forall|i: int|
                    0 <= i < v@.len() ==> (#[trigger] v@[i]).name@ == recs[i].0 && v@[i].secret@
                        == recs[i].1
            },
            Err(e) => spec_scan(data@) == Err::<Seq<(Seq<u8>, Seq<u8>)>, StoreError>(e),
        },
{
    let len = data.len();
    let mut out: Vec<Record> = Vec::new();
    let mut pos: usize = 0;
    loop
        invariant
            pos <= len,
            len == data@.len(),
            (scan_from(data@, pos as int) matches Ok(rest) ==> {
                &&& spec_scan(data@) matches Ok(all)
                &&& all == out@.map_values(|rec: Record| (rec.name@, rec.secret@)) + rest
            }),
            (scan_from(data@, pos as int) is Err ==> spec_scan(data@) == scan_from(
                data@,
                pos as int,
            )),
        decreases len - pos,
    {
        if pos == len {
            proof {
                assert(out@.map_values(|rec: Record| (rec.name@, rec.secret@)) + Seq::<
                    (Seq<u8>, Seq<u8>),
                >::empty() =~= out@.map_values(|rec: Record| (rec.name@, rec.secret@)));
            }
            return Ok(out);
        }
        if len - pos < 5 {
            return Err(StoreError::TruncatedStore);
        }
        let name_len = data[pos] as usize;
        let secret_len = read_be_u32(data[pos + 1], data[pos + 2], data[pos + 3], data[pos + 4]);
        let name_start = pos + 5;
        let rem = (len - name_start) as u64;
        let needed = name_len as u64 + secret_len as u64;
        if needed > rem {
            return Err(StoreError::TruncatedStore);
        }
        let secret_start = name_start + name_len;
        let rec_end = secret_start + secret_len as usize;
        let name = vstd::slice::slice_to_vec(
            vstd::slice::slice_subrange(data.as_slice(), name_start, secret_start),
        );
        let secret = vstd::slice::slice_to_vec(
            vstd::slice::slice_subrange(data.as_slice(), secret_start, rec_end),
        );
        let ghost out0 = out@;
        out.push(Record { name, secret });
        proof {
            let f = |rec: Record| (rec.name@, rec.secret@);
            assert(out@.map_values(f) =~= out0.map_values(f) + seq![
                (
                    data@.subrange(name_start as int, secret_start as int),
                    data@.subrange(secret_start as int, rec_end as int),
                ),
            ]);
        }
        pos = rec_end;
    }
}

/// The length field reads back as the length it was made from.
proof fn lemma_be32_round_trip(n: u32)
    by (bit_vector)
    ensures
        u32_from_be(
            ((n >> 24) & 0xff) as u8,
            ((n >> 16) & 0xff) as u8,
            ((n >> 8) & 0xff) as u8,
            (n & 0xff) as u8,
        ) == n,
{
}

/// A record's fields read back from its layout: the header holds the two
/// lengths and the name and secret follow at their places.
proof fn lemma_record_layout(name: Seq<u8>, secret: Seq<u8>)
    requires
        name.len() <= 255,
        secret.len() <= u32::MAX,
    ensures
        ({
            let r = record_bytes(name, secret);
            &&& r.len() == 5 + name.len() + secret.len()
            &&& r[0] as int == name.len()
            &&& u32_from_be(r[1], r[2], r[3], r[4]) as int == secret.len()
            &&& r.subrange(5, 5 + name.len() as int) == name
            &&& r.subrange(5 + name.len() as int, r.len() as int) == secret
        }),
{
    let r = record_bytes(name, secret);
    lemma_be32_round_trip(secret.len() as u32);
    assert(r.subrange(5, 5 + name.len() as int) =~= name);
    assert(r.subrange(5 + name.len() as int, r.len() as int) =~= secret);
}

/// Store round trip: a record appended to a store is found again under its
/// name, with its secret intact, and a name looked up in an empty store is
/// NotFound.
pub proof fn lemma_store_round_trip(name: Seq<u8>, secret: Seq<u8>)
    requires
        name.len() <= 255,
        secret.len() <= u32::MAX,
    ensures
        spec_find(record_bytes(name, secret), name) == Ok::<Seq<u8>, StoreError>(secret),
        spec_find(Seq::<u8>::empty(), name) == Err::<Seq<u8>, StoreError>(StoreError::NotFound),
{
    lemma_record_layout(name, secret);
}

/// Looking a name up in a store that starts with a record of another name
/// skips that record whole and continues right after it, whether or not
/// the name lengths collide.
proof fn lemma_find_skips_record(other: Seq<u8>, secret: Seq<u8>, rest: Seq<u8>, name: Seq<u8>)
    requires
        other.len() <= 255,
        secret.len() <= u32::MAX,
        name != other,
    ensures
        find_from(record_bytes(other, secret) + rest, 0, name) == find_from(
            record_bytes(other, secret) + rest,
            record_bytes(other, secret).len() as int,
            name,
        ),
{
    let r = record_bytes(other, secret);
    let d = r + rest;
    lemma_record_layout(other, secret);
    assert(d.subrange(0, r.len() as int) =~= r);
    assert(d[0] == r[0] && d[1] == r[1] && d[2] == r[2] && d[3] == r[3] && d[4] == r[4]);
    if other.len() == name.len() {
        assert(d.subrange(5, 5 + other.len() as int) =~= r.subrange(5, 5 + other.len() as int));
        assert(d.subrange(5, 5 + name.len() as int) != name);
    }
}

/// Positions past a leading record see only what follows it: a scan of the
/// whole store from there equals a scan of the remainder alone.
proof fn lemma_find_from_suffix(prefix: Seq<u8>, rest: Seq<u8>, pos: int, name: Seq<u8>)
    requires
        0 <= pos,
    ensures
        find_from(prefix + rest, prefix.len() + pos, name) == find_from(rest, pos, name),
    decreases rest.len() - pos,
{
    let d = prefix + rest;
    let dpos = prefix.len() + pos;
    if pos + 5 <= rest.len() {
        assert(d[dpos] == rest[pos] && d[dpos + 1] == rest[pos + 1] && d[dpos + 2] == rest[pos
            + 2] && d[dpos + 3] == rest[pos + 3] && d[dpos + 4] == rest[pos + 4]);
        let name_len = rest[pos] as int;
        let secret_len = u32_from_be(rest[pos + 1], rest[pos + 2], rest[pos + 3], rest[pos + 4]) as int;
        let name_start = pos + 5;
        let secret_start = name_start + name_len;
        let rec_end = secret_start + secret_len;
        if name_len != name.len() {
            if rec_end <= rest.len() {
                lemma_find_from_suffix(prefix, rest, rec_end, name);
            }
        } else if secret_start <= rest.len() {
            assert(d.subrange(dpos + 5, dpos + 5 + name_len) =~= rest.subrange(
                name_start,
                secret_start,
            ));
            if rest.subrange(name_start, secret_start) == name {
                if rec_end <= rest.len() {
                    assert(d.subrange(dpos + 5 + name_len, dpos + 5 + name_len + secret_len)
                        =~= rest.subrange(secret_start, rec_end));
                }
            } else {
                if rec_end <= rest.len() {
                    lemma_find_from_suffix(prefix, rest, rec_end, name);
                }
            }
        }
    }
}

/// Store isolation: with two records of different names in the store, each
/// name finds its own secret, also when the name lengths collide.
pub proof fn lemma_store_isolation(n1: Seq<u8>, s1: Seq<u8>, n2: Seq<u8>, s2: Seq<u8>)
    requires
        n1.len() <= 255,
        n2.len() <= 255,
        s1.len() <= u32::MAX,
        s2.len() <= u32::MAX,
        n1 != n2,
    ensures
        spec_find(record_bytes(n1, s1) + record_bytes(n2, s2), n1) == Ok::<Seq<u8>, StoreError>(
            s1,
        ),
        spec_find(record_bytes(n1, s1) + record_bytes(n2, s2), n2) == Ok::<Seq<u8>, StoreError>(
            s2,
        ),
{
    let r1 = record_bytes(n1, s1);
    let r2 = record_bytes(n2, s2);
    let d = r1 + r2;
    lemma_record_layout(n1, s1);
    lemma_record_layout(n2, s2);
    assert(d[0] == r1[0] && d[1] == r1[1] && d[2] == r1[2] && d[3] == r1[3] && d[4] == r1[4]);
    assert(d.subrange(5, 5 + n1.len() as int) =~= r1.subrange(5, 5 + n1.len() as int));
    assert(d.subrange(5 + n1.len() as int, r1.len() as int) =~= r1.subrange(
        5 + n1.len() as int,
        r1.len() as int,
    ));
    assert(spec_find(d, n1) == Ok::<Seq<u8>, StoreError>(s1));
    lemma_find_skips_record(n1, s1, r2, n2);
    lemma_find_from_suffix(r1, r2, 0, n2);
    lemma_store_round_trip(n2, s2);
}

} // verus!
