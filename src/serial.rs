use vstd::prelude::*;
use crate::key::{lemma_pack_unpack, pack, pack_spec, unpack, unpack_spec, valid_key};
use crate::payload::Payload;
use crate::store::{lists, Mutation, SparseVoxelStore};

verus! {

/// A store as three index-aligned sequences, one row per entry in key order:
/// the position as big-endian byte pairs (x, y, z), the compression level,
/// and the payload's bytes.
pub struct SerializedStore {
    pub coords: Vec<[u8; 6]>,
    pub tags: Vec<u8>,
    pub payloads: Vec<Vec<u8>>,
}

/// Why a serialized store was rejected.
#[derive(Debug, PartialEq, Eq, Structural)]
pub enum DecodeError {
    /// The three sequences differ in length.
    LengthMismatch,
    /// The row's level tag is above the largest level.
    BadTag { row: usize },
    /// The row's payload bytes stand for no value.
    BadPayload { row: usize },
}

/// The six bytes of a position.
pub open spec fn coord_bytes(x: u16, y: u16, z: u16) -> Seq<u8> {
    seq![(x / 256) as u8, (x % 256) as u8, (y / 256) as u8, (y % 256) as u8, (z / 256) as u8, (z % 256) as u8]
}

/// The position of six bytes.
pub open spec fn coords_of(b: Seq<u8>) -> (u16, u16, u16) {
    ((b[0] * 256 + b[1]) as u16, (b[2] * 256 + b[3]) as u16, (b[4] * 256 + b[5]) as u16)
}

/// The key that row `i` of the given coordinate and tag sequences stands
/// for.
pub open spec fn row_key_of(coords: Seq<[u8; 6]>, tags: Seq<u8>, i: int) -> u64 {
    let c = coords_of(coords[i]@);
    pack_spec(c.0, c.1, c.2, tags[i])
}

/// The key that row `i` stands for.
pub open spec fn row_key(s: &SerializedStore, i: int) -> u64 {
    row_key_of(s.coords@, s.tags@, i)
}

/// Whether row `i` has a valid tag and payload bytes that decode.
pub open spec fn row_ok<V: Payload>(s: &SerializedStore, i: int) -> bool {
    s.tags@[i] <= 15 && V::value_of(s.payloads@[i]@) is Some
}

/// The entries that the rows stand for, in row order.
pub open spec fn rows<V: Payload>(s: &SerializedStore) -> Seq<(u64, V)> {
    Seq::new(s.tags@.len(), |i: int| (row_key(s, i), V::value_of(s.payloads@[i]@)->Some_0))
}

/// The map that inserting a run of entries into an empty map, in order,
/// gives.
pub open spec fn map_of_rows<V>(r: Seq<(u64, V)>) -> Map<u64, V>
    decreases r.len(),
{
    if r.len() == 0 {
        Map::empty()
    } else {
        map_of_rows(r.drop_last()).insert(r.last().0, r.last().1)
    }
}

/// Whether `s` is the serialized form of the contents `m`: aligned rows that
/// list the entries of `m` in key order, each with the lowest corner of its
/// region and its payload's bytes.
pub open spec fn serialized_as<V: Payload>(s: &SerializedStore, m: Map<u64, V>) -> bool {
    &&& s.coords@.len() == s.tags@.len()
    &&& s.payloads@.len() == s.tags@.len()
    &&& lists(rows::<V>(s), m)
    &&& forall|i: int|
        #![trigger s.tags@[i]]
        0 <= i < s.tags@.len() ==> {
            let u = unpack_spec(row_key(s, i));
            &&& s.tags@[i] <= 15
            &&& s.coords@[i]@ == coord_bytes(u.0, u.1, u.2)
            &&& s.payloads@[i]@ == V::bytes_of(rows::<V>(s)[i].1)
        }
}

proof fn lemma_coord_bytes(x: u16, y: u16, z: u16)
    ensures
        coords_of(coord_bytes(x, y, z)) == (x, y, z),
{
}

/// The serialized form of a store's entries.
pub fn serialize<V: Payload>(store: &SparseVoxelStore<V>) -> (r: SerializedStore)
    requires
        store.wf(),
    ensures
        serialized_as(&r, store@),
{
    let entries = store.to_entries();
    proof {
        store.lemma_valid();
    }
    let mut r = SerializedStore { coords: Vec::new(), tags: Vec::new(), payloads: Vec::new() };
    let mut i: usize = 0;
    while i < entries.len()
        invariant
            lists(entries@, store@),
            forall|k: u64| #[trigger] store@.contains_key(k) ==> valid_key(k),
            i <= entries@.len(),
            r.coords@.len() == i,
            r.tags@.len() == i,
            r.payloads@.len() == i,
            forall|t: int|
                #![trigger r.tags@[t]]
                0 <= t < i ==> row_key_of(r.coords@, r.tags@, t) == entries@[t].0 && V::value_of(r.payloads@[t]@) == Some(
                    entries@[t].1,
                ) && {
                    let u = unpack_spec(entries@[t].0);
                    &&& r.tags@[t] <= 15
                    &&& r.coords@[t]@ == coord_bytes(u.0, u.1, u.2)
                    &&& r.payloads@[t]@ == V::bytes_of(entries@[t].1)
                },
        decreases entries@.len() - i,
    {
        let (k, v) = entries[i];
        let (x, y, z, level) = unpack(k);
        let c: [u8; 6] = [
            (x / 256) as u8,
            (x % 256) as u8,
            (y / 256) as u8,
            (y % 256) as u8,
            (z / 256) as u8,
            (z % 256) as u8,
        ];
        proof {
            assert(c@ =~= coord_bytes(x, y, z));
            lemma_coord_bytes(x, y, z);
            assert(store@.contains_key(entries@[i as int].0));
            lemma_pack_unpack(k);
            V::lemma_bytes_round_trip(v);
        }
        let ghost coords0 = r.coords@;
        let ghost tags0 = r.tags@;
        let ghost pays0 = r.payloads@;
        r.coords.push(c);
        r.tags.push(level);
        r.payloads.push(v.to_bytes());
        proof {
            assert forall|t: int| #![trigger r.tags@[t]] 0 <= t < i + 1 implies row_key_of(r.coords@, r.tags@, t) == entries@[t].0
                && V::value_of(r.payloads@[t]@) == Some(entries@[t].1) && {
                let u = unpack_spec(entries@[t].0);
                &&& r.tags@[t] <= 15
                &&& r.coords@[t]@ == coord_bytes(u.0, u.1, u.2)
                &&& r.payloads@[t]@ == V::bytes_of(entries@[t].1)
            } by {
                if t < i {
                    assert(r.tags@[t] == tags0[t]);
                    assert(r.coords@[t] == coords0[t]);
                    assert(r.payloads@[t] == pays0[t]);
                    assert(row_key_of(r.coords@, r.tags@, t) == row_key_of(coords0, tags0, t));
                }
            }
        }
        i = i + 1;
    }
    proof {
        assert(rows::<V>(&r) =~= entries@);
    }
    r
}

/// The store that a serialized form stands for. It is rejected as a whole
/// when the sequences differ in length, or at the first row whose tag is
/// above the largest level or whose payload bytes do not decode.
pub fn deserialize<V: Payload>(s: &SerializedStore) -> (r: Result<SparseVoxelStore<V>, DecodeError>)
    ensures
        match r {
            Ok(store) => {
                &&& store.wf()
                &&& s.coords@.len() == s.tags@.len() && s.payloads@.len() == s.tags@.len()
                &&& forall|i: int| 0 <= i < s.tags@.len() ==> #[trigger] row_ok::<V>(s, i)
                &&& store@ == map_of_rows(rows::<V>(s))
                &&& store.pending() == Seq::<Mutation<V>>::empty()
            },
            Err(DecodeError::LengthMismatch) => !(s.coords@.len() == s.tags@.len()
                && s.payloads@.len() == s.tags@.len()),
            Err(DecodeError::BadTag { row }) => {
                &&& s.coords@.len() == s.tags@.len() && s.payloads@.len() == s.tags@.len()
                &&& row < s.tags@.len()
                &&& s.tags@[row as int] > 15
                &&& forall|i: int| 0 <= i < row ==> #[trigger] row_ok::<V>(s, i)
            },
            Err(DecodeError::BadPayload { row }) => {
                &&& s.coords@.len() == s.tags@.len() && s.payloads@.len() == s.tags@.len()
                &&& row < s.tags@.len()
                &&& s.tags@[row as int] <= 15
                &&& V::value_of(s.payloads@[row as int]@) is None
                &&& forall|i: int| 0 <= i < row ==> #[trigger] row_ok::<V>(s, i)
            },
        },
{
    let n = s.tags.len();
    if s.coords.len() != n || s.payloads.len() != n {
        return Err(DecodeError::LengthMismatch);
    }
    let mut store: SparseVoxelStore<V> = SparseVoxelStore::new();
    let mut i: usize = 0;
    while i < n
        invariant
            n == s.tags@.len(),
            s.coords@.len() == n,
            s.payloads@.len() == n,
            i <= n,
            store.wf(),
            store.pending() == Seq::<Mutation<V>>::empty(),
            store@ == map_of_rows(rows::<V>(s).take(i as int)),
            forall|t: int| 0 <= t < i ==> #[trigger] row_ok::<V>(s, t),
        decreases n - i,
    {
        let tag = s.tags[i];
        if tag > 15 {
            return Err(DecodeError::BadTag { row: i });
        }
        let value = match V::from_bytes(s.payloads[i].as_slice()) {
            Some(v) => v,
            None => {
                return Err(DecodeError::BadPayload { row: i });
            },
        };
        let c = s.coords[i];
        let x: u16 = (c[0] as u16) * 256 + c[1] as u16;
        let y: u16 = (c[2] as u16) * 256 + c[3] as u16;
        let z: u16 = (c[4] as u16) * 256 + c[5] as u16;
        let k = pack(x, y, z, tag);
        proof {
            assert((x, y, z) == coords_of(s.coords@[i as int]@));
            assert(k == row_key(s, i as int));
            assert(rows::<V>(s).take(i + 1).drop_last() =~= rows::<V>(s).take(i as int));
        }
        store.put(k, value);
        i = i + 1;
    }
    assert(rows::<V>(s).take(n as int) =~= rows::<V>(s));
    Ok(store)
}

proof fn lemma_map_of_sorted<V>(r: Seq<(u64, V)>, m: Map<u64, V>)
    requires
        lists(r, m),
    ensures
        map_of_rows(r) == m,
    decreases r.len(),
{
    if r.len() == 0 {
        assert forall|k: u64| !m.contains_key(k) by {
            if m.contains_key(k) {
                let i = choose|i: int| 0 <= i < r.len() && r[i].0 == k;
            }
        }
        assert(m =~= Map::empty());
    } else {
        let last = r.last();
        let rest = r.drop_last();
        let m1 = m.remove(last.0);
        assert(m.contains_key(r[r.len() - 1].0));
        assert forall|i: int| #![trigger rest[i]] 0 <= i < rest.len() implies m1.contains_key(rest[i].0)
            && m1[rest[i].0] == rest[i].1 by {
            assert(rest[i] == r[i]);
            assert(r[i].0 < r[r.len() - 1].0);
        }
        assert forall|k: u64| #[trigger] m1.contains_key(k) implies exists|i: int|
            0 <= i < rest.len() && rest[i].0 == k by {
            let i = choose|i: int| 0 <= i < r.len() && r[i].0 == k;
            assert(i != r.len() - 1);
            assert(rest[i] == r[i]);
        }
        lemma_map_of_sorted(rest, m1);
        assert(m1.insert(last.0, last.1) =~= m);
    }
}

/// Reading back the serialized form of a store's contents accepts every row
/// and gives the same contents, so every lookup and query agrees.
pub proof fn lemma_serialize_round_trip<V: Payload>(s: &SerializedStore, m: Map<u64, V>)
    requires
        serialized_as(s, m),
    ensures
        forall|i: int| 0 <= i < s.tags@.len() ==> #[trigger] row_ok::<V>(s, i),
        map_of_rows(rows::<V>(s)) == m,
{
    assert forall|i: int| 0 <= i < s.tags@.len() implies #[trigger] row_ok::<V>(s, i) by {
        assert(s.tags@[i] <= 15);
        V::lemma_bytes_round_trip(rows::<V>(s)[i].1);
    }
    lemma_map_of_sorted(rows::<V>(s), m);
}

} // verus!
