//! RC4 stream-cipher engine: a 256-entry byte permutation table plus two
//! cursors, initialized from a non-empty key and advanced one step per
//! transformed byte. The combine step is XOR, so transforming twice with
//! two freshly keyed engines restores the original buffer.

use vstd::prelude::*;

verus! {

/// The mathematical state of an engine: the permutation table and the
/// two cursors.
pub ghost struct StreamState {
    pub table: Seq<u8>,
    pub i: u8,
    pub j: u8,
}

impl StreamState {
    /// The table always holds exactly 256 entries.
    pub open spec fn wf(self) -> bool {
        self.table.len() == 256
    }
}

/// The table holds each of the 256 byte values exactly once.
pub open spec fn is_permutation(t: Seq<u8>) -> bool {
    &&& t.len() == 256
    &&& forall|x: int, y: int|
        0 <= x < 256 && 0 <= y < 256 && x != y ==> t[x] != t[y]
}

/// The identity permutation: entry k holds the value k.
pub open spec fn identity_table() -> Seq<u8> {
    Seq::new(256, |k: int| k as u8)
}

/// Exchanges the entries at positions `a` and `b`.
pub open spec fn swap_entries(t: Seq<u8>, a: int, b: int) -> Seq<u8>
    recommends
        0 <= a < t.len(),
        0 <= b < t.len(),
{
    t.update(a, t[b]).update(b, t[a])
}

/// The key byte consumed by key-scheduling round `round`: the key is
/// cycled over the 256 rounds.
pub open spec fn key_byte(key: Seq<u8>, round: int) -> u8
    recommends
        key.len() > 0,
        0 <= round,
{
    key[round % (key.len() as int)]
}

/// One key-scheduling round: fold the next key byte into the rolling
/// accumulator `j`, then swap the table entries at `round` and `j`.
pub open spec fn ksa_round(key: Seq<u8>, t: Seq<u8>, j: u8, round: int) -> (Seq<u8>, u8)
    recommends
        key.len() > 0,
        t.len() == 256,
        0 <= round < 256,
{
    let j2 = ((j + t[round] + key_byte(key, round)) % 256) as u8;
    (swap_entries(t, round, j2 as int), j2)
}

/// Table and accumulator after the first `n` key-scheduling rounds,
/// starting from the identity table.
pub open spec fn ksa_state(key: Seq<u8>, n: int) -> (Seq<u8>, u8)
    recommends
        key.len() > 0,
        n <= 256,
    decreases n,
{
    if n <= 0 {
        (identity_table(), 0u8)
    } else {
        let prev = ksa_state(key, n - 1);
        ksa_round(key, prev.0, prev.1, n - 1)
    }
}

/// The permutation a fresh engine starts from: all 256 rounds of key
/// scheduling applied to the identity table.
pub open spec fn initial_table(key: Seq<u8>) -> Seq<u8>
    recommends
        key.len() > 0,
{
    ksa_state(key, 256).0
}

/// The state of a freshly keyed engine: scheduled table, both cursors 0.
pub open spec fn initial_state(key: Seq<u8>) -> StreamState
    recommends
        key.len() > 0,
{
    StreamState { table: initial_table(key), i: 0u8, j: 0u8 }
}

/// One generation step: advance both cursors, swap the two entries they
/// select, and read off the keystream byte.
pub open spec fn step(st: StreamState) -> (StreamState, u8)
    recommends
        st.wf(),
{
    let i2 = ((st.i + 1) % 256) as u8;
    let j2 = ((st.j + st.table[i2 as int]) % 256) as u8;
    let t2 = swap_entries(st.table, i2 as int, j2 as int);
    let k = t2[((t2[i2 as int] + t2[j2 as int]) % 256) as int];
    (StreamState { table: t2, i: i2, j: j2 }, k)
}

/// The engine state after generating `n` keystream bytes.
pub open spec fn run(st: StreamState, n: nat) -> StreamState
    recommends
        st.wf(),
    decreases n,
{
    if n == 0 {
        st
    } else {
        step(run(st, (n - 1) as nat)).0
    }
}

/// The keystream byte produced by step `k` (counting from 0).
pub open spec fn keystream_at(st: StreamState, k: nat) -> u8
    recommends
        st.wf(),
{
    step(run(st, k)).1
}

/// What a transform call does to a buffer: XOR each byte with the
/// keystream byte of the same position.
pub open spec fn transform_spec(st: StreamState, data: Seq<u8>) -> Seq<u8>
    recommends
        st.wf(),
{
    Seq::new(data.len(), |k: int| data[k] ^ keystream_at(st, k as nat))
}

/// Rejected inputs: the only failure this module can report.
#[derive(Debug, PartialEq, Eq, Structural)]
pub enum CipherError {
    /// The key handed to the constructor was empty.
    InvalidKey,
}

/// An RC4 engine: one exclusively owned permutation table plus the two
/// cursors. Constructed from a key, then advanced by `encrypt`.
pub struct RC4 {
    s: Vec<u8>,
    i: u8,
    j: u8,
}

impl View for RC4 {
    type V = StreamState;

    closed spec fn view(&self) -> StreamState {
        StreamState { table: self.s@, i: self.i, j: self.j }
    }
}

impl RC4 {
    /// Builds a fresh engine from a non-empty key: the table is derived
    /// by the key-scheduling rounds and both cursors start at 0.
    pub fn new(key: &[u8]) -> (r: RC4)
        requires
            key@.len() >= 1,
        ensures
            r@ == initial_state(key@),
            r@.wf(),
            is_permutation(r@.table),
    {
        proof {
            lemma_initial_table_is_permutation(key@);
        }
        let mut s: Vec<u8> = Vec::new();
        let mut idx: usize = 0;
        while idx < 256
            invariant
                idx <= 256,
                s@.len() == idx,
                forall|m: int| 0 <= m < idx ==> s@[m] == m as u8,
            decreases 256 - idx,
        {
            s.push(idx as u8);
            idx += 1;
        }
        proof {
            assert(s@ =~= identity_table());
        }
        let mut j: u8 = 0;
        let mut i: usize = 0;
        while i < 256
            invariant
                key@.len() >= 1,
                i <= 256,
                s@.len() == 256,
                (s@, j) == ksa_state(key@, i as int),
            decreases 256 - i,
        {
            let ki = key[i % key.len()];
            let j2: usize = (j as usize + s[i] as usize + ki as usize) % 256;
            let tmp = s[i];
            let sj = s[j2];
            s[i] = sj;
            s[j2] = tmp;
            proof {
                assert((s@, j2 as u8) == ksa_round(key@, ksa_state(key@, i as int).0,
                    ksa_state(key@, i as int).1, i as int));
                assert((s@, j2 as u8) == ksa_state(key@, i as int + 1));
            }
            j = j2 as u8;
            i += 1;
        }
        RC4 { s, i: 0, j: 0 }
    }

    /// Checked construction: an empty key is rejected with `InvalidKey`,
    /// any other key yields the same engine as `new`.
    pub fn try_new(key: &[u8]) -> (r: Result<RC4, CipherError>)
        ensures
            key@.len() == 0 <==> r is Err,
            r is Err ==> r == Result::<RC4, CipherError>::Err(CipherError::InvalidKey),
            r is Ok ==> r->Ok_0@ == initial_state(key@),
    {
        if key.len() == 0 {
            Err(CipherError::InvalidKey)
        } else {
            Ok(RC4::new(key))
        }
    }

    /// Transforms `data` in place: each byte is XORed with the next
    /// keystream byte, and the engine state advances one step per byte.
    /// A second call continues the same keystream, so decrypting takes a
    /// freshly keyed engine, not this already-advanced one.
    pub fn encrypt(&mut self, data: &mut Vec<u8>)
        requires
            old(self)@.wf(),
        ensures
            final(self)@ == run(old(self)@, old(data)@.len()),
            final(data)@ == transform_spec(old(self)@, old(data)@),
            final(self)@.wf(),
            is_permutation(old(self)@.table) ==> is_permutation(final(self)@.table),
    {
        proof {
            if is_permutation(self@.table) {
                lemma_run_preserves_permutation(self@, data@.len());
            }
        }
        let ghost st0 = self@;
        let ghost d0 = data@;
        let len = data.len();
        let mut k: usize = 0;
        while k < len
            invariant
                st0.wf(),
                len == d0.len(),
                data@.len() == len,
                k <= len,
                self@ == run(st0, k as nat),
                self@.wf(),
                forall|m: int| 0 <= m < k ==> data@[m] == (d0[m] ^ keystream_at(st0, m as nat)),
                forall|m: int| k <= m < len ==> data@[m] == d0[m],
            decreases len - k,
        {
            let ghost stk = self@;
            let i2: u8 = ((self.i as usize + 1) % 256) as u8;
            let j2: u8 = ((self.j as usize + self.s[i2 as usize] as usize) % 256) as u8;
            let tmp = self.s[i2 as usize];
            let tj = self.s[j2 as usize];
            self.s[i2 as usize] = tj;
            self.s[j2 as usize] = tmp;
            self.i = i2;
            self.j = j2;
            let ks = self.s[(self.s[i2 as usize] as usize + self.s[j2 as usize] as usize) % 256];
            proof {
                assert((self@, ks) == step(stk));
                assert(self@ == run(st0, (k + 1) as nat));
                assert(ks == keystream_at(st0, k as nat));
            }
            let b = data[k];
            data[k] = b ^ ks;
            k += 1;
        }
        proof {
            assert(data@ =~= transform_spec(st0, d0));
        }
    }
}

/// Exchanging two entries of a table with pairwise-distinct entries
/// leaves its entries pairwise distinct.
proof fn lemma_swap_preserves_permutation(t: Seq<u8>, a: int, b: int)
    requires
        is_permutation(t),
        0 <= a < 256,
        0 <= b < 256,
    ensures
        is_permutation(swap_entries(t, a, b)),
{
}

/// The identity table is a permutation of the byte values.
proof fn lemma_identity_is_permutation()
    ensures
        is_permutation(identity_table()),
{
    assert forall|x: int, y: int|
        0 <= x < 256 && 0 <= y < 256 && x != y implies identity_table()[x]
        != identity_table()[y] by {
        assert(identity_table()[x] as int == x);
        assert(identity_table()[y] as int == y);
    }
}

/// Every prefix of the key-scheduling rounds leaves the table a
/// permutation of the byte values.
proof fn lemma_ksa_state_permutation(key: Seq<u8>, n: int)
    requires
        key.len() >= 1,
        n <= 256,
    ensures
        is_permutation(ksa_state(key, n).0),
    decreases n,
{
    if n <= 0 {
        lemma_identity_is_permutation();
    } else {
        lemma_ksa_state_permutation(key, n - 1);
        let prev = ksa_state(key, n - 1);
        let j2 = ((prev.1 + prev.0[n - 1] + key_byte(key, n - 1)) % 256) as u8;
        lemma_swap_preserves_permutation(prev.0, n - 1, j2 as int);
    }
}

/// Permutation invariant, at construction: the table a fresh engine
/// starts from is a permutation of the byte values.
pub proof fn lemma_initial_table_is_permutation(key: Seq<u8>)
    requires
        key.len() >= 1,
    ensures
        is_permutation(initial_state(key).table),
{
    lemma_ksa_state_permutation(key, 256);
}

/// Permutation invariant, under transforms: generating any number of
/// keystream bytes keeps the table a permutation of the byte values.
pub proof fn lemma_run_preserves_permutation(st: StreamState, n: nat)
    requires
        is_permutation(st.table),
    ensures
        is_permutation(run(st, n).table),
    decreases n,
{
    if n > 0 {
        lemma_run_preserves_permutation(st, (n - 1) as nat);
        let prev = run(st, (n - 1) as nat);
        let i2 = ((prev.i + 1) % 256) as u8;
        let j2 = ((prev.j + prev.table[i2 as int]) % 256) as u8;
        lemma_swap_preserves_permutation(prev.table, i2 as int, j2 as int);
    }
}

/// Running the engine is additive: `m + n` steps reach the same state as
/// `m` steps followed by another `n`.
pub proof fn lemma_run_additive(st: StreamState, m: nat, n: nat)
    ensures
        run(st, m + n) == run(run(st, m), n),
    decreases n,
{
    if n > 0 {
        lemma_run_additive(st, m, (n - 1) as nat);
        assert(run(st, m + n) == step(run(st, (m + n - 1) as nat)).0);
    }
}

/// Determinism: two engines keyed independently from the same key are in
/// the same state, so they transform the same buffer to the same output.
pub proof fn lemma_determinism(key: Seq<u8>, st1: StreamState, st2: StreamState, data: Seq<u8>)
    requires
        key.len() >= 1,
        st1 == initial_state(key),
        st2 == initial_state(key),
    ensures
        transform_spec(st1, data) == transform_spec(st2, data),
{
}

/// Self-inverse round trip: transforming a buffer twice from the same
/// starting state (two freshly keyed engines) restores the buffer.
pub proof fn lemma_round_trip(st: StreamState, data: Seq<u8>)
    ensures
        transform_spec(st, transform_spec(st, data)) == data,
{
    let once = transform_spec(st, data);
    assert forall|k: int| 0 <= k < data.len() implies transform_spec(st, once)[k]
        == data[k] by {
        let ks = keystream_at(st, k as nat);
        let d = data[k];
        assert((d ^ ks) ^ ks == d) by (bit_vector);
    }
    assert(transform_spec(st, once) =~= data);
}

/// Identity on empty input: a transform of the empty buffer changes
/// neither the buffer nor the engine state.
pub proof fn lemma_empty_input_is_noop(st: StreamState)
    ensures
        run(st, 0) == st,
        transform_spec(st, Seq::<u8>::empty()) == Seq::<u8>::empty(),
{
    assert(transform_spec(st, Seq::<u8>::empty()) =~= Seq::<u8>::empty());
}

/// Stream continuity: one engine fed `b1` then `b2` produces the same
/// bytes as a second engine in the same starting state fed `b1 + b2`,
/// split at the boundary.
pub proof fn lemma_stream_continuity(st: StreamState, b1: Seq<u8>, b2: Seq<u8>)
    ensures
        transform_spec(st, b1 + b2) == transform_spec(st, b1) + transform_spec(
            run(st, b1.len()),
            b2,
        ),
{
    let whole = transform_spec(st, b1 + b2);
    let parts = transform_spec(st, b1) + transform_spec(run(st, b1.len()), b2);
    assert forall|k: int| 0 <= k < whole.len() implies whole[k] == parts[k] by {
        if k >= b1.len() {
            lemma_run_additive(st, b1.len(), (k - b1.len()) as nat);
            assert(keystream_at(run(st, b1.len()), (k - b1.len()) as nat)
                == keystream_at(st, k as nat));
        }
    }
    assert(whole =~= parts);
}

} // verus!
