//! The key ring: a master key, and a seed for each generation. A rotation adds a generation,
//! and old generations stay, so that what was encrypted under them can still be read.

use crate::crypto;
use crate::model::{EngineError, EngineResult, Refusal};
use crate::rng::{DeterministicRng, Rng};
use crate::text;
use std::collections::BTreeMap;
use vstd::prelude::*;
use vstd::std_specs::cmp::OrdSpec;
use vstd::std_specs::iter::IteratorSpec;
use vstd::string::*;
use vstd::utf8::*;

verus! {

broadcast use {vstd::seq::group_seq_axioms, vstd::std_specs::btree::group_btree_axioms};

/// The length of derived keys, and of seeds.
pub const DERIVE_OKM_LEN: usize = 32;

/// How far the rotation to a generation has come.
#[derive(Debug, Clone, Copy, PartialEq, Eq, Structural)]
pub enum RotationPhase {
    /// The new key is stored, but nothing refers to it yet.
    KeyWritten,
    /// State and audit log refer to the new generation.
    Committed,
}

/// A generation as it is stored. A phase means that the rotation stopped there.
#[derive(Debug, Clone)]
pub struct GenerationRecord {
    pub id: u64,
    pub seed_hex: String,
    pub created_unix: i64,
    pub pending: Option<RotationPhase>,
}

/// The key ring as it is stored.
#[derive(Debug, Clone)]
pub struct KeychainFile {
    pub master_hex: String,
    pub audit_key_hex: String,
    pub generations: BTreeMap<u64, GenerationRecord>,
    pub current_generation: u64,
}

/// A generation.
#[derive(Debug)]
pub struct Generation {
    pub id: u64,
    pub seed: Vec<u8>,
    pub created_unix: i64,
    pub pending: Option<RotationPhase>,
}

/// The mathematical form of a `Generation`.
pub struct Gen {
    pub id: u64,
    pub seed: Seq<u8>,
    pub created_unix: i64,
    pub pending: Option<RotationPhase>,
}

impl View for Generation {
    type V = Gen;

    open spec fn view(&self) -> Gen {
        Gen {
            id: self.id,
            seed: self.seed@,
            created_unix: self.created_unix,
            pending: self.pending,
        }
    }
}

impl Clone for Generation {
    fn clone(&self) -> (r: Self)
        ensures
            r@ == self@,
    {
        let mut seed: Vec<u8> = Vec::new();
        crypto::push_bytes(&mut seed, self.seed.as_slice());
        assert(seed@ =~= self.seed@);
        Generation { id: self.id, seed, created_unix: self.created_unix, pending: self.pending }
    }
}

/// The key ring.
pub struct Keychain {
    file: KeychainFile,
    gens: BTreeMap<u64, Generation>,
}

/// The mathematical form of a `Keychain`.
pub struct Ring {
    pub master_hex: Seq<char>,
    pub audit_key_hex: Seq<char>,
    pub gens: Map<u64, Gen>,
    /// The text that the seed of each generation is stored as.
    pub seed_texts: Map<u64, Seq<char>>,
    pub current: u64,
}

/// The generation that a record stands for.
pub open spec fn record_gen(rec: GenerationRecord) -> Gen {
    Gen {
        id: rec.id,
        seed: match crypto::unhexed(rec.seed_hex@) {
            Ok(b) => b,
            Err(_) => seq![],
        },
        created_unix: rec.created_unix,
        pending: rec.pending,
    }
}

/// The text that the seed of each generation is stored as.
pub open spec fn stored_seeds(records: Map<u64, GenerationRecord>) -> Map<u64, Seq<char>> {
    records.map_values(|rec: GenerationRecord| rec.seed_hex@)
}

/// The ring that a file stands for.
pub open spec fn file_ring(file: KeychainFile) -> Ring {
    Ring {
        master_hex: file.master_hex@,
        audit_key_hex: file.audit_key_hex@,
        gens: file.generations@.map_values(|rec: GenerationRecord| record_gen(rec)),
        seed_texts: stored_seeds(file.generations@),
        current: file.current_generation,
    }
}

/// What is wrong with a record that is stored under an id.
pub open spec fn record_fault(id: u64, rec: GenerationRecord) -> Option<Seq<char>> {
    match crypto::unhexed(rec.seed_hex@) {
        Err(_) => Some("代次种子编码损坏"@),
        Ok(seed) => if id != rec.id || seed.len() != 32 {
            Some("代次记录不一致"@)
        } else {
            None
        },
    }
}

/// The lowest id whose record is not in order is `id`.
pub open spec fn first_bad_record(file: KeychainFile, id: u64) -> bool {
    &&& file.generations@.contains_key(id)
    &&& record_fault(id, file.generations@[id]) is Some
    &&& forall|k: u64| #[trigger]
        file.generations@.contains_key(k) && k < id ==> record_fault(k, file.generations@[k])
            is None
}

/// All records are in order.
pub open spec fn records_fit(file: KeychainFile) -> bool {
    forall|k: u64| #[trigger]
        file.generations@.contains_key(k) ==> record_fault(k, file.generations@[k]) is None
}

/// The references of a list are ordered as the numbers are.
proof fn lemma_increasing(s: Seq<&u64>)
    requires
        vstd::std_specs::btree::increasing_seq(s),
    ensures
        forall|i: int, j: int| 0 <= i < j < s.len() ==> *s[i] < *s[j],
{
    broadcast use {vstd::laws_cmp::group_laws_cmp, vstd::laws_eq::group_laws_eq};

    reveal(vstd::laws_eq::obeys_eq_spec_properties);
    reveal(vstd::laws_cmp::obeys_partial_cmp_spec_properties);
    reveal(vstd::laws_cmp::obeys_cmp_partial_ord);
    reveal(vstd::laws_cmp::obeys_cmp_ord);
    assert(vstd::laws_eq::obeys_eq::<&u64>());
    assert(vstd::laws_cmp::obeys_cmp::<&u64>());
    assert forall|i: int, j: int| 0 <= i < j < s.len() implies *s[i] < *s[j] by {
        assert(OrdSpec::cmp_spec(&s[i], &s[j]) is Less);
    }
}

/// The keys of a map, in order.
fn ids_of<V>(map: &BTreeMap<u64, V>) -> (r: Vec<u64>)
    ensures
        r@.to_set() == map@.dom(),
        forall|i: int, j: int| 0 <= i < j < r@.len() ==> r@[i] < r@[j],
{
    let ghost all = vstd::std_specs::btree::spec_keys_iter(map).remaining();
    let mut out: Vec<u64> = Vec::new();
    for k in it: map.keys()
        invariant
            it.seq() == all,
            out@ == all.unref().take(it.index() as int),
            all.unref().to_set() == map@.dom(),
            vstd::std_specs::btree::increasing_seq(all),
    {
        out.push(*k);
        assert(out@ =~= all.unref().take(it.index() + 1));
    }
    proof {
        assert(all.unref().take(all.len() as int) =~= all.unref());
        lemma_increasing(all);
    }
    out
}

fn corrupt(message: &str) -> (r: EngineError)
    ensures
        r@ == Refusal::Corrupt(message@),
{
    EngineError::Corrupt(message.to_string())
}

/// The key for one purpose, derived from the seed of a generation for a tenant.
pub open spec fn derived_key(g: Gen, tenant: Seq<char>, purpose: Seq<char>) -> Seq<u8> {
    crypto::hkdf_of(
        encode_utf8("maskroom-derive-salt-v1"@) + crypto::be8(g.id),
        g.seed,
        encode_utf8("maskroom-tenant-key-v1"@) + encode_utf8(tenant) + encode_utf8(purpose)
            + crypto::be8(g.id),
        DERIVE_OKM_LEN as int,
    )
}

/// The ring that a room starts with: one generation, with the number 1.
pub open spec fn first_ring(master: Seq<u8>, seed: Seq<u8>, now: i64) -> Ring {
    Ring {
        master_hex: crypto::hex_text(master),
        audit_key_hex: crypto::hex_text(
            crypto::hkdf_of(
                encode_utf8("maskroom-audit-salt-v1"@),
                master,
                encode_utf8("maskroom-audit-key-v1"@),
                DERIVE_OKM_LEN as int,
            ),
        ),
        gens: Map::empty().insert(1u64, Gen { id: 1, seed, created_unix: now, pending: None }),
        seed_texts: Map::empty().insert(1u64, crypto::hex_text(seed)),
        current: 1,
    }
}

/// The ring after the first phase of a rotation: the new generation is there, but not current.
pub open spec fn with_new(ring: Ring, seed: Seq<u8>, now: i64) -> Ring {
    let id = (ring.current + 1) as u64;
    Ring {
        gens: ring.gens.insert(
            id,
            Gen { id, seed, created_unix: now, pending: Some(RotationPhase::KeyWritten) },
        ),
        seed_texts: ring.seed_texts.insert(id, crypto::hex_text(seed)),
        ..ring
    }
}

/// The ring with another phase for a generation.
pub open spec fn with_pending(ring: Ring, id: u64, pending: Option<RotationPhase>) -> Ring {
    if ring.gens.contains_key(id) {
        Ring { gens: ring.gens.insert(id, Gen { pending, ..ring.gens[id] }), ..ring }
    } else {
        ring
    }
}

/// Two draws of thirty-two bytes, one after the other: first the master key, then the seed.
pub open spec fn two_draws<R: Rng>(
    start: R,
    master: Seq<u8>,
    between: R,
    seed: Seq<u8>,
    end: R,
) -> bool {
    &&& master.len() == 32
    &&& seed.len() == 32
    &&& start.gives(32, master, &between)
    &&& between.gives(32, seed, &end)
}

/// The ring after the second phase of a rotation: the new generation is current.
pub open spec fn promoted(ring: Ring, id: u64) -> Ring {
    Ring { current: id, ..with_pending(ring, id, Some(RotationPhase::KeyWritten)) }
}

/// The ring after the last phase of a rotation: nothing is pending any more.
pub open spec fn committed(ring: Ring, id: u64) -> Ring {
    with_pending(ring, id, None)
}

/// The ring without a generation.
pub open spec fn without(ring: Ring, id: u64) -> Ring {
    Ring { gens: ring.gens.remove(id), seed_texts: ring.seed_texts.remove(id), ..ring }
}

impl View for Keychain {
    type V = Ring;

    closed spec fn view(&self) -> Ring {
        Ring {
            master_hex: self.file.master_hex@,
            audit_key_hex: self.file.audit_key_hex@,
            gens: self.gens@.map_values(|g: Generation| g@),
            seed_texts: stored_seeds(self.file.generations@),
            current: self.file.current_generation,
        }
    }
}

impl Keychain {
    /// The stored form agrees with the generations in memory, every seed has thirty-two
    /// bytes, and the current generation is there.
    pub closed spec fn wf(&self) -> bool {
        &&& records_fit(self.file)
        &&& file_ring(self.file) == self@
        &&& self.gens@.contains_key(self.file.current_generation)
    }

    /// The ring of a room that starts with the given bytes.
    pub fn with_draws(master: &[u8], seed: Vec<u8>, now: i64) -> (r: Self)
        requires
            seed@.len() == 32,
        ensures
            r.wf(),
            r@ == first_ring(master@, seed@, now),
    {
        let audit_key: Vec<u8> = crypto::hkdf(
            "maskroom-audit-salt-v1".as_bytes(),
            master,
            "maskroom-audit-key-v1".as_bytes(),
            DERIVE_OKM_LEN,
        );
        let rec: GenerationRecord = GenerationRecord {
            id: 1,
            seed_hex: crypto::hex_encode(seed.as_slice()),
            created_unix: now,
            pending: None,
        };
        let mut generations: BTreeMap<u64, GenerationRecord> = BTreeMap::new();
        generations.insert(1, rec);
        let generation: Generation = Generation { id: 1, seed, created_unix: now, pending: None };
        let mut gens: BTreeMap<u64, Generation> = BTreeMap::new();
        gens.insert(1, generation);
        let r: Keychain = Keychain {
            file: KeychainFile {
                master_hex: crypto::hex_encode(master),
                audit_key_hex: crypto::hex_encode(audit_key.as_slice()),
                generations,
                current_generation: 1,
            },
            gens,
        };
        proof {
            crypto::lemma_hex_reads_back(seed@);
            assert(r@.gens =~= first_ring(master@, seed@, now).gens);
            assert(r@.seed_texts =~= first_ring(master@, seed@, now).seed_texts);
            assert(file_ring(r.file).gens =~= r@.gens);
        }
        r
    }

    /// The ring of a room that is opened for the first time, with a fresh master key and a
    /// fresh seed.
    pub fn initialize<R: Rng>(rng: &mut R, now: i64) -> (r: Self)
        ensures
            r.wf(),
            exists|master: Seq<u8>, seed: Seq<u8>, between: R|
                #[trigger] two_draws(*old(rng), master, between, seed, *final(rng)) && r@
                    == first_ring(master, seed, now),
    {
        let ghost start = *rng;
        let mut master: [u8; 32] = [0u8;32];
        rng.fill(&mut master);
        let ghost between = *rng;
        let mut seed: [u8; 32] = [0u8;32];
        rng.fill(&mut seed);
        assert(two_draws(start, master@, between, seed@, *rng));
        let bytes: Vec<u8> = crypto::first_bytes(&seed, 32);
        assert(bytes@ =~= seed@);
        Keychain::with_draws(&master, bytes, now)
    }

    /// The ring that a file stands for, if there is a file and it is in order.
    pub fn open(file: Option<KeychainFile>) -> (r: EngineResult<Self>)
        ensures
            match (file, r) {
                (None, Err(e)) => e@ == Refusal::Corrupt("密钥库不存在"@),
                (None, Ok(_)) => false,
                (Some(f), Ok(k)) => {
                    &&& records_fit(f)
                    &&& f.generations@.contains_key(f.current_generation)
                    &&& k.wf()
                    &&& k@ == file_ring(f)
                },
                (Some(f), Err(e)) => {
                    ||| exists|id: u64| #[trigger]
                        first_bad_record(f, id) && e@ == Refusal::Corrupt(
                            record_fault(id, f.generations@[id])->0,
                        )
                    ||| records_fit(f) && !f.generations@.contains_key(f.current_generation) && e@
                        == Refusal::Corrupt("当前代次缺失"@)
                },
            },
    {
        let stored: KeychainFile = match file {
            Some(f) => f,
            None => {
                return Err(corrupt("密钥库不存在"));
            },
        };
        let ids: Vec<u64> = ids_of(&stored.generations);
        let mut gens: BTreeMap<u64, Generation> = BTreeMap::new();
        let mut i: usize = 0;
        while i < ids.len()
            invariant
                file == Some(stored),
                i <= ids@.len(),
                ids@.to_set() == stored.generations@.dom(),
                forall|a: int, b: int| 0 <= a < b < ids@.len() ==> ids@[a] < ids@[b],
                forall|a: int|
                    0 <= a < i ==> record_fault(
                        #[trigger] ids@[a],
                        stored.generations@[ids@[a]],
                    ) is None,
                gens@.dom() == ids@.take(i as int).to_set(),
                forall|k: u64| #[trigger]
                    gens@.contains_key(k) ==> gens@[k]@ == record_gen(stored.generations@[k]),
            decreases ids@.len() - i,
        {
            let id: u64 = ids[i];
            proof {
                assert(ids@.to_set().contains(ids@[i as int]));
                assert forall|k: u64| stored.generations@.contains_key(k) && k < id implies
                    record_fault(k, stored.generations@[k]) is None by {
                    assert(ids@.to_set().contains(k));
                    let a = choose|a: int| 0 <= a < ids@.len() && ids@[a] == k;
                    if a >= i {
                        assert(ids@[a] >= id);
                    }
                }
            }
            let rec: &GenerationRecord = stored.generations.get(&id).unwrap();
            let seed: Vec<u8> = match crypto::hex_decode(rec.seed_hex.as_str()) {
                Ok(s) => s,
                Err(_) => {
                    assert(first_bad_record(stored, id));
                    return Err(corrupt("代次种子编码损坏"));
                },
            };
            if id != rec.id || seed.len() != 32 {
                assert(first_bad_record(stored, id));
                return Err(corrupt("代次记录不一致"));
            }
            let generation: Generation = Generation {
                id: rec.id,
                seed,
                created_unix: rec.created_unix,
                pending: rec.pending,
            };
            gens.insert(id, generation);
            proof {
                assert(ids@.take(i + 1) =~= ids@.take(i as int).push(id));
                assert(ids@.take(i + 1).to_set() =~= ids@.take(i as int).to_set().insert(id)) by {
                    assert forall|k: u64| ids@.take(i + 1).contains(k) <==> (ids@.take(
                        i as int,
                    ).contains(k) || k == id) by {
                        if ids@.take(i as int).contains(k) {
                            let a = choose|a: int|
                                0 <= a < i && ids@.take(i as int)[a] == k;
                            assert(ids@.take(i + 1)[a] == k);
                        }
                        if k == id {
                            assert(ids@.take(i + 1)[i as int] == k);
                        }
                    }
                }
            }
            i = i + 1;
        }
        proof {
            assert(ids@.take(i as int) =~= ids@);
            assert forall|k: u64| #[trigger] stored.generations@.contains_key(k) implies record_fault(
                k,
                stored.generations@[k],
            ) is None by {
                assert(ids@.to_set().contains(k));
                let a = choose|a: int| 0 <= a < ids@.len() && ids@[a] == k;
                assert(record_fault(ids@[a], stored.generations@[ids@[a]]) is None);
            }
        }
        if !gens.contains_key(&stored.current_generation) {
            return Err(corrupt("当前代次缺失"));
        }
        let r: Keychain = Keychain { file: stored, gens };
        assert(r@.gens =~= file_ring(r.file).gens);
        Ok(r)
    }

    /// The stored form of the ring.
    pub fn file(&self) -> (r: &KeychainFile)
        requires
            self.wf(),
        ensures
            records_fit(*r),
            file_ring(*r) == self@,
    {
        &self.file
    }

    /// The key of the audit log.
    pub fn audit_key(&self) -> (r: Vec<u8>)
        requires
            crypto::unhexed(self@.audit_key_hex) is Ok,
        ensures
            Ok::<Seq<u8>, Seq<char>>(r@) == crypto::unhexed(self@.audit_key_hex),
    {
        match crypto::hex_decode(self.file.audit_key_hex.as_str()) {
            Ok(key) => key,
            Err(_) => Vec::new(),
        }
    }

    /// The current generation.
    pub fn current(&self) -> (r: &Generation)
        requires
            self.wf(),
        ensures
            r@ == self@.gens[self@.current],
            self@.gens.contains_key(self@.current),
    {
        self.gens.get(&self.file.current_generation).unwrap()
    }

    /// The id of the current generation.
    pub fn current_id(&self) -> (r: u64)
        ensures
            r == self@.current,
    {
        self.file.current_generation
    }

    /// The generation with an id.
    pub fn generation(&self, id: u64) -> (r: Option<&Generation>)
        ensures
            match r {
                Some(g) => self@.gens.contains_key(id) && g@ == self@.gens[id],
                None => !self@.gens.contains_key(id),
            },
    {
        self.gens.get(&id)
    }

    /// The ids of all generations, in order.
    pub fn generation_ids(&self) -> (r: Vec<u64>)
        ensures
            r@.to_set() == self@.gens.dom(),
            forall|i: int, j: int| 0 <= i < j < r@.len() ==> r@[i] < r@[j],
    {
        assert(self@.gens.dom() =~= self.gens@.dom());
        ids_of(&self.gens)
    }

    /// Adds a generation with the given seed, without making it the current one.
    pub fn write_new(&mut self, seed: Vec<u8>, now: i64) -> (r: u64)
        requires
            old(self).wf(),
            old(self)@.current < u64::MAX,
            seed@.len() == 32,
        ensures
            final(self).wf(),
            r == old(self)@.current + 1,
            final(self)@ == with_new(old(self)@, seed@, now),
    {
        let ghost before = *self;
        let id: u64 = self.file.current_generation + 1;
        let rec: GenerationRecord = GenerationRecord {
            id,
            seed_hex: crypto::hex_encode(seed.as_slice()),
            created_unix: now,
            pending: Some(RotationPhase::KeyWritten),
        };
        let generation: Generation = Generation {
            id,
            seed,
            created_unix: now,
            pending: Some(RotationPhase::KeyWritten),
        };
        self.file.generations.insert(id, rec);
        self.gens.insert(id, generation);
        proof {
            crypto::lemma_hex_reads_back(seed@);
            assert(file_ring(before.file).gens =~= before@.gens);
            assert(self@.gens =~= with_new(before@, seed@, now).gens);
            assert(self@.seed_texts =~= with_new(before@, seed@, now).seed_texts);
            assert(file_ring(self.file).gens =~= self@.gens);
        }
        id
    }

    /// The first phase of a rotation: adds a generation with a fresh seed, without making it
    /// the current one. Stopping here leaves everything as it was for readers and writers.
    pub fn rotate_write_new<R: Rng>(&mut self, rng: &mut R, now: i64) -> (r: u64)
        requires
            old(self).wf(),
            old(self)@.current < u64::MAX,
        ensures
            final(self).wf(),
            r == old(self)@.current + 1,
            exists|seed: Seq<u8>|
                seed.len() == 32 && #[trigger] old(rng).gives(32, seed, final(rng))
                    && final(self)@ == with_new(old(self)@, seed, now),
    {
        let mut seed: [u8; 32] = [0u8;32];
        rng.fill(&mut seed);
        let bytes: Vec<u8> = crypto::first_bytes(&seed, 32);
        assert(bytes@ =~= seed@);
        self.write_new(bytes, now)
    }

    fn set_pending(&mut self, id: u64, pending: Option<RotationPhase>)
        requires
            old(self).wf(),
        ensures
            final(self).wf(),
            final(self)@ == with_pending(old(self)@, id, pending),
    {
        let ghost before = *self;
        let rec: GenerationRecord = match self.file.generations.get(&id) {
            Some(rec) => GenerationRecord {
                id: rec.id,
                seed_hex: rec.seed_hex.clone(),
                created_unix: rec.created_unix,
                pending,
            },
            None => {
                assert(!file_ring(self.file).gens.contains_key(id));
                return ;
            },
        };
        let mut generation: Generation = match self.gens.get(&id) {
            Some(g) => g.clone(),
            None => {
                assert(!self@.gens.contains_key(id));
                assert(file_ring(self.file).gens.contains_key(id));
                return ;
            },
        };
        generation.pending = pending;
        proof {
            assert(file_ring(before.file).gens.contains_key(id));
            assert(before@.gens[id] == before.gens@[id]@);
            assert(file_ring(before.file).gens[id] == record_gen(before.file.generations@[id]));
        }
        self.file.generations.insert(id, rec);
        self.gens.insert(id, generation);
        proof {
            assert(self@.gens =~= with_pending(before@, id, pending).gens);
            assert(self@.seed_texts =~= before@.seed_texts);
            assert(file_ring(self.file).gens =~= self@.gens);
            assert(records_fit(self.file)) by {
                assert(record_fault(id, before.file.generations@[id]) is None);
            }
        }
    }

    /// The second phase of a rotation: makes a generation the current one.
    pub fn rotate_promote(&mut self, new_id: u64) -> (r: EngineResult<()>)
        requires
            old(self).wf(),
        ensures
            final(self).wf(),
            match r {
                Ok(_) => old(self)@.gens.contains_key(new_id) && final(self)@ == promoted(
                    old(self)@,
                    new_id,
                ),
                Err(e) => !old(self)@.gens.contains_key(new_id) && final(self)@ == old(self)@
                    && e@ == Refusal::Corrupt("待提升代次不存在"@),
            },
    {
        if !self.gens.contains_key(&new_id) {
            return Err(corrupt("待提升代次不存在"));
        }
        self.set_pending(new_id, Some(RotationPhase::KeyWritten));
        self.file.current_generation = new_id;
        proof {
            assert(self@ == promoted(old(self)@, new_id));
            assert(self.gens@.contains_key(new_id)) by {
                assert(self@.gens.contains_key(new_id));
            }
        }
        Ok(())
    }

    /// The last phase of a rotation: nothing is pending for the generation any more.
    pub fn rotate_commit(&mut self, new_id: u64)
        requires
            old(self).wf(),
        ensures
            final(self).wf(),
            final(self)@ == committed(old(self)@, new_id),
    {
        self.set_pending(new_id, None);
    }

    /// Takes back a generation whose id lies above that of the current one.
    pub fn discard_generation(&mut self, id: u64) -> (r: EngineResult<()>)
        requires
            old(self).wf(),
        ensures
            final(self).wf(),
            match r {
                Ok(_) => old(self)@.current < id && final(self)@ == without(old(self)@, id),
                Err(e) => old(self)@.current >= id && final(self)@ == old(self)@ && e@
                    == Refusal::Conflict("代次已提升，不能丢弃"@),
            },
    {
        if self.file.current_generation >= id {
            return Err(EngineError::Conflict("代次已提升，不能丢弃".to_string()));
        }
        let ghost before = *self;
        self.file.generations.remove(&id);
        self.gens.remove(&id);
        proof {
            assert(file_ring(before.file).gens =~= before@.gens);
            assert(self@.gens =~= without(before@, id).gens);
            assert(self@.seed_texts =~= without(before@, id).seed_texts);
            assert(file_ring(self.file).gens =~= self@.gens);
        }
        Ok(())
    }

    /// The first generation whose rotation stopped on the way.
    pub fn pending_generation(&self) -> (r: Option<Generation>)
        ensures
            match r {
                Some(g) => exists|id: u64|
                    {
                        &&& #[trigger] self@.gens.contains_key(id)
                        &&& g@ == self@.gens[id]
                        &&& g.pending is Some
                        &&& forall|k: u64| #[trigger]
                            self@.gens.contains_key(k) && k < id ==> self@.gens[k].pending is None
                    },
                None => forall|k: u64| #[trigger]
                    self@.gens.contains_key(k) ==> self@.gens[k].pending is None,
            },
    {
        let ids: Vec<u64> = self.generation_ids();
        let mut i: usize = 0;
        while i < ids.len()
            invariant
                i <= ids@.len(),
                ids@.to_set() == self@.gens.dom(),
                forall|a: int, b: int| 0 <= a < b < ids@.len() ==> ids@[a] < ids@[b],
                forall|a: int| 0 <= a < i ==> self@.gens[#[trigger] ids@[a]].pending is None,
            decreases ids@.len() - i,
        {
            let id: u64 = ids[i];
            proof {
                assert(ids@.to_set().contains(ids@[i as int]));
            }
            let g: &Generation = self.generation(id).unwrap();
            if g.pending.is_some() {
                proof {
                    assert(self@.gens.contains_key(id));
                    assert forall|k: u64| #[trigger] self@.gens.contains_key(k) && k < id implies
                        self@.gens[k].pending is None by {
                        assert(ids@.to_set().contains(k));
                        let a = choose|a: int| 0 <= a < ids@.len() && ids@[a] == k;
                        if a >= i {
                            assert(ids@[a] >= id);
                        }
                        assert(self@.gens[ids@[a]].pending is None);
                    }
                }
                return Some(g.clone());
            }
            i = i + 1;
        }
        proof {
            assert forall|k: u64| #[trigger] self@.gens.contains_key(k) implies self@.gens[k].pending
                is None by {
                assert(ids@.to_set().contains(k));
                let a = choose|a: int| 0 <= a < ids@.len() && ids@[a] == k;
                assert(self@.gens[ids@[a]].pending is None);
            }
        }
        None
    }

    /// Whether the ring has come as far as a generation.
    pub fn is_promoted(&self, id: u64) -> (r: bool)
        ensures
            r == (self@.current >= id),
    {
        self.file.current_generation >= id
    }

    fn derive(&self, gen: &Generation, tenant: &str, purpose: &str) -> (r: Vec<u8>)
        ensures
            r@ == derived_key(gen@, tenant@, purpose@),
    {
        let mut salt: Vec<u8> = Vec::new();
        crypto::push_text(&mut salt, "maskroom-derive-salt-v1");
        crypto::push_be8(&mut salt, gen.id);
        let mut info: Vec<u8> = Vec::new();
        crypto::push_text(&mut info, "maskroom-tenant-key-v1");
        crypto::push_text(&mut info, tenant);
        crypto::push_text(&mut info, purpose);
        crypto::push_be8(&mut info, gen.id);
        proof {
            assert(salt@ =~= encode_utf8("maskroom-derive-salt-v1"@) + crypto::be8(gen.id));
            assert(info@ =~= encode_utf8("maskroom-tenant-key-v1"@) + encode_utf8(tenant@)
                + encode_utf8(purpose@) + crypto::be8(gen.id));
        }
        crypto::hkdf(salt.as_slice(), gen.seed.as_slice(), info.as_slice(), DERIVE_OKM_LEN)
    }

    fn purpose_key(&self, gen_id: u64, tenant: &str, purpose: &str) -> (r: EngineResult<Vec<u8>>)
        ensures
            match r {
                Ok(key) => self@.gens.contains_key(gen_id) && key@ == derived_key(
                    self@.gens[gen_id],
                    tenant@,
                    purpose@,
                ),
                Err(e) => !self@.gens.contains_key(gen_id) && e is InvalidToken,
            },
    {
        match self.generation(gen_id) {
            Some(g) => Ok(self.derive(g, tenant, purpose)),
            None => Err(EngineError::InvalidToken),
        }
    }

    /// The key of the tags of a tenant's tokens.
    pub fn token_tag_key(&self, gen_id: u64, tenant: &str) -> (r: EngineResult<Vec<u8>>)
        ensures
            match r {
                Ok(key) => self@.gens.contains_key(gen_id) && key@ == derived_key(
                    self@.gens[gen_id],
                    tenant@,
                    "token-tag"@,
                ),
                Err(e) => !self@.gens.contains_key(gen_id) && e is InvalidToken,
            },
    {
        self.purpose_key(gen_id, tenant, "token-tag")
    }

    /// The key of the ids of a tenant's stable records.
    pub fn stable_id_key(&self, gen_id: u64, tenant: &str) -> (r: EngineResult<Vec<u8>>)
        ensures
            match r {
                Ok(key) => self@.gens.contains_key(gen_id) && key@ == derived_key(
                    self@.gens[gen_id],
                    tenant@,
                    "stable-record-id"@,
                ),
                Err(e) => !self@.gens.contains_key(gen_id) && e is InvalidToken,
            },
    {
        self.purpose_key(gen_id, tenant, "stable-record-id")
    }

    /// The key that a tenant's mappings are encrypted with.
    pub fn data_key(&self, gen_id: u64, tenant: &str) -> (r: EngineResult<Vec<u8>>)
        ensures
            match r {
                Ok(key) => self@.gens.contains_key(gen_id) && key@ == derived_key(
                    self@.gens[gen_id],
                    tenant@,
                    "mapping-data"@,
                ),
                Err(e) => !self@.gens.contains_key(gen_id) && e is InvalidToken,
            },
    {
        self.purpose_key(gen_id, tenant, "mapping-data")
    }
}

/// What an encrypted mapping is bound to.
pub open spec fn mapping_bond(gen_id: u64, tenant: Seq<char>, record_id: Seq<char>) -> Seq<u8> {
    encode_utf8("maskroom-mapping-aad-v1"@) + crypto::be8(gen_id) + encode_utf8(tenant)
        + encode_utf8(record_id)
}

/// The associated data of an encrypted mapping, which keep it from being moved to another
/// generation, tenant or record.
pub fn mapping_aad(gen_id: u64, tenant: &str, record_id_b64: &str) -> (r: Vec<u8>)
    ensures
        r@ == mapping_bond(gen_id, tenant@, record_id_b64@),
{
    let mut out: Vec<u8> = Vec::new();
    crypto::push_text(&mut out, "maskroom-mapping-aad-v1");
    crypto::push_be8(&mut out, gen_id);
    crypto::push_text(&mut out, tenant);
    crypto::push_text(&mut out, record_id_b64);
    assert(out@ =~= mapping_bond(gen_id, tenant@, record_id_b64@));
    out
}

/// What a mapping is bound to fixes its generation, its tenant and its record, as long as the ids
/// of records have the same length.
pub proof fn lemma_bond_fixes_its_parts(
    gen_id: u64,
    tenant: Seq<char>,
    record_id: Seq<char>,
    gen_id2: u64,
    tenant2: Seq<char>,
    record_id2: Seq<char>,
)
    requires
        mapping_bond(gen_id, tenant, record_id) == mapping_bond(gen_id2, tenant2, record_id2),
        encode_utf8(record_id).len() == encode_utf8(record_id2).len(),
    ensures
        gen_id == gen_id2,
        tenant == tenant2,
        record_id == record_id2,
{
    let head = encode_utf8("maskroom-mapping-aad-v1"@);
    let a = crypto::be8(gen_id);
    let b = crypto::be8(gen_id2);
    lemma_four_parts(head, a, encode_utf8(tenant), encode_utf8(record_id));
    lemma_four_parts(head, b, encode_utf8(tenant2), encode_utf8(record_id2));
    crypto::lemma_be8_tells_apart(gen_id, gen_id2);
    assert(encode_utf8(tenant).len() == encode_utf8(tenant2).len());
    text::lemma_encoding_is_injective(tenant, tenant2);
    text::lemma_encoding_is_injective(record_id, record_id2);
}

proof fn lemma_four_parts(a: Seq<u8>, b: Seq<u8>, c: Seq<u8>, d: Seq<u8>)
    ensures
        ({
            let whole = a + b + c + d;
            let p = (a.len() + b.len()) as int;
            &&& whole.len() == a.len() + b.len() + c.len() + d.len()
            &&& whole.subrange(a.len() as int, p) == b
            &&& whole.subrange(p, p + c.len()) == c
            &&& whole.subrange(p + c.len(), p + c.len() + d.len()) == d
        }),
{
    let whole = a + b + c + d;
    let p = (a.len() + b.len()) as int;
    assert(whole.subrange(a.len() as int, p) =~= b);
    assert(whole.subrange(p, p + c.len()) =~= c);
    assert(whole.subrange(p + c.len(), p + c.len() + d.len()) =~= d);
}

/// A rotation in all its phases makes the new generation current, leaves nothing pending for
/// it, and keeps every other generation, so that every key derived before can be derived
/// again.
pub proof fn lemma_rotation_keeps_generations(ring: Ring, seed: Seq<u8>, now: i64)
    requires
        ring.current < u64::MAX,
    ensures
        ({
            let id = (ring.current + 1) as u64;
            let after = committed(promoted(with_new(ring, seed, now), id), id);
            &&& after.current == id
            &&& after.gens.contains_key(id)
            &&& after.gens[id] == (Gen { id, seed, created_unix: now, pending: None })
            &&& after.master_hex == ring.master_hex
            &&& after.audit_key_hex == ring.audit_key_hex
            &&& after.gens.dom() == ring.gens.dom().insert(id)
            &&& after.seed_texts == ring.seed_texts.insert(id, crypto::hex_text(seed))
            &&& forall|k: u64| #[trigger]
                ring.gens.contains_key(k) && k != id ==> after.gens.contains_key(k)
                    && after.gens[k] == ring.gens[k]
        }),
{
    let id = (ring.current + 1) as u64;
    let after = committed(promoted(with_new(ring, seed, now), id), id);
    assert(after.gens.dom() =~= ring.gens.dom().insert(id));
}

/// A rotation that stops after its first phase can be taken back, and the ring is what it was.
pub proof fn lemma_discarding_undoes_the_first_phase(ring: Ring, seed: Seq<u8>, now: i64)
    requires
        ring.current < u64::MAX,
        !ring.gens.contains_key((ring.current + 1) as u64),
        ring.seed_texts.dom() == ring.gens.dom(),
    ensures
        without(with_new(ring, seed, now), (ring.current + 1) as u64) == ring,
{
    let id = (ring.current + 1) as u64;
    assert(!ring.seed_texts.contains_key(id));
    assert(without(with_new(ring, seed, now), id).gens =~= ring.gens);
    assert(without(with_new(ring, seed, now), id).seed_texts =~= ring.seed_texts);
}

/// Rooms that are opened with streams in the same state get the same master key, the same seed
/// and so the same ring.
pub proof fn lemma_equal_streams_give_equal_rings(
    a: DeterministicRng,
    master_a: Seq<u8>,
    between_a: DeterministicRng,
    seed_a: Seq<u8>,
    end_a: DeterministicRng,
    b: DeterministicRng,
    master_b: Seq<u8>,
    between_b: DeterministicRng,
    seed_b: Seq<u8>,
    end_b: DeterministicRng,
    now: i64,
)
    requires
        a@ == b@,
        two_draws(a, master_a, between_a, seed_a, end_a),
        two_draws(b, master_b, between_b, seed_b, end_b),
    ensures
        first_ring(master_a, seed_a, now) == first_ring(master_b, seed_b, now),
        end_a@ == end_b@,
{
}

}
