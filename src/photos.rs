use vstd::prelude::*;
use vstd::string::StringSliceAdditionalSpecFns;
use vstd::utf8::*;
use crate::paths::{classify, split_path, Format, RegisterError};
use crate::serializers::SerializableHash;

verus! {

/// What a physical file is, as the contracts see it.
pub struct FileModel {
    pub path: Seq<char>,
    pub size: u64,
    pub hash: Option<Seq<u8>>,
}

/// What a photo unit is, as the contracts see it.
pub struct UnitModel {
    pub stem: Seq<char>,
    pub jpg: Option<FileModel>,
    pub raw: Option<FileModel>,
}

/// What a collection is: the primary units in registration order, and for
/// each colliding stem the list of its extra units.
pub struct CollectionModel {
    pub primary: Seq<UnitModel>,
    pub duplicates: Seq<(Seq<char>, Seq<UnitModel>)>,
}

/// One file found on disk: its path, its size, and its digest once computed.
pub struct PhotoFile {
    pub path: String,
    pub size: u64,
    pub hash: Option<SerializableHash>,
}

/// One logical photograph: at most one lossy and one raw file sharing a stem.
pub struct PhotoElement {
    pub stem: String,
    pub jpg: Option<PhotoFile>,
    pub raw: Option<PhotoFile>,
}

/// All registered photo units, keyed by stem, with stem collisions kept aside.
pub struct PhotoCollection {
    file_map: Vec<PhotoElement>,
    duplicates: Vec<(String, Vec<PhotoElement>)>,
}

pub open spec fn hash_view(h: Option<SerializableHash>) -> Option<Seq<u8>> {
    match h {
        Some(d) => Some(d@),
        None => None,
    }
}

pub open spec fn file_view(f: Option<PhotoFile>) -> Option<FileModel> {
    match f {
        Some(p) => Some(p@),
        None => None,
    }
}

impl View for PhotoFile {
    type V = FileModel;

    open spec fn view(&self) -> FileModel {
        FileModel { path: self.path@, size: self.size, hash: hash_view(self.hash) }
    }
}

impl View for PhotoElement {
    type V = UnitModel;

    open spec fn view(&self) -> UnitModel {
        UnitModel { stem: self.stem@, jpg: file_view(self.jpg), raw: file_view(self.raw) }
    }
}

pub open spec fn units_view(v: Seq<PhotoElement>) -> Seq<UnitModel> {
    v.map_values(|u: PhotoElement| u@)
}

pub open spec fn duplicates_view(v: Seq<(String, Vec<PhotoElement>)>) -> Seq<(Seq<char>, Seq<UnitModel>)> {
    v.map_values(|e: (String, Vec<PhotoElement>)| (e.0@, units_view(e.1@)))
}

impl View for PhotoCollection {
    type V = CollectionModel;

    closed spec fn view(&self) -> CollectionModel {
        CollectionModel {
            primary: units_view(self.file_map@),
            duplicates: duplicates_view(self.duplicates@),
        }
    }
}

/// A freshly found file: no digest yet.
pub open spec fn new_file(path: Seq<char>, size: u64) -> FileModel {
    FileModel { path, size, hash: None }
}

/// The slot of `u` that files of format `f` go to.
pub open spec fn slot(u: UnitModel, f: Format) -> Option<FileModel> {
    match f {
        Format::Lossy => u.jpg,
        Format::Raw => u.raw,
    }
}

/// `u` with `file` in the slot for `f`.
pub open spec fn fill_slot(u: UnitModel, f: Format, file: FileModel) -> UnitModel {
    match f {
        Format::Lossy => UnitModel { jpg: Some(file), ..u },
        Format::Raw => UnitModel { raw: Some(file), ..u },
    }
}

/// A new unit for `stem` holding `file` alone.
pub open spec fn unit_with(stem: Seq<char>, f: Format, file: FileModel) -> UnitModel {
    fill_slot(UnitModel { stem, jpg: None, raw: None }, f, file)
}

/// Position of the unit for `stem`, or -1.
pub open spec fn stem_index(units: Seq<UnitModel>, stem: Seq<char>) -> int {
    if exists|i: int| 0 <= i < units.len() && (#[trigger] units[i]).stem == stem {
        choose|i: int| 0 <= i < units.len() && (#[trigger] units[i]).stem == stem
    } else {
        -1
    }
}

/// Position of the duplicate list for `stem`, or -1.
pub open spec fn duplicate_index(d: Seq<(Seq<char>, Seq<UnitModel>)>, stem: Seq<char>) -> int {
    if exists|j: int| 0 <= j < d.len() && (#[trigger] d[j]).0 == stem {
        choose|j: int| 0 <= j < d.len() && (#[trigger] d[j]).0 == stem
    } else {
        -1
    }
}

impl CollectionModel {
    /// Stems are unique among primary units and among duplicate lists; every
    /// duplicate list belongs to a primary stem and holds units of that stem.
    pub open spec fn wf(self) -> bool {
        &&& forall|i: int, k: int|
            0 <= i < k < self.primary.len() ==> (#[trigger] self.primary[i]).stem
                != (#[trigger] self.primary[k]).stem
        &&& forall|j: int, k: int|
            0 <= j < k < self.duplicates.len() ==> (#[trigger] self.duplicates[j]).0
                != (#[trigger] self.duplicates[k]).0
        &&& forall|j: int|
            0 <= j < self.duplicates.len() ==> stem_index(
                self.primary,
                (#[trigger] self.duplicates[j]).0,
            ) >= 0
        &&& forall|j: int, k: int|
            0 <= j < self.duplicates.len() && 0 <= k < self.duplicates[j].1.len() ==> (
            #[trigger] self.duplicates[j].1[k]).stem == self.duplicates[j].0
    }

    /// Number of distinct stems.
    pub open spec fn entry_count(self) -> nat {
        self.primary.len()
    }

    /// Number of stems that have at least one duplicate unit.
    pub open spec fn duplicate_count(self) -> nat {
        self.duplicates.len()
    }

    /// How many duplicate units `stem` has.
    pub open spec fn duplicates_of(self, stem: Seq<char>) -> nat {
        let j = duplicate_index(self.duplicates, stem);
        if j < 0 {
            0
        } else {
            self.duplicates[j].1.len()
        }
    }

    /// The collection after `file`, of stem `stem` and format `f`, is placed:
    /// a new stem gets a new primary unit; a known stem whose primary unit has
    /// the slot free gets it filled; otherwise a fresh unit is appended to the
    /// stem's duplicate list.
    pub open spec fn place(self, stem: Seq<char>, f: Format, file: FileModel) -> CollectionModel {
        let i = stem_index(self.primary, stem);
        let u = unit_with(stem, f, file);
        if i < 0 {
            CollectionModel { primary: self.primary.push(u), duplicates: self.duplicates }
        } else if slot(self.primary[i], f) is None {
            CollectionModel {
                primary: self.primary.update(i, fill_slot(self.primary[i], f, file)),
                duplicates: self.duplicates,
            }
        } else {
            let j = duplicate_index(self.duplicates, stem);
            if j < 0 {
                CollectionModel {
                    primary: self.primary,
                    duplicates: self.duplicates.push((stem, seq![u])),
                }
            } else {
                CollectionModel {
                    primary: self.primary,
                    duplicates: self.duplicates.update(j, (stem, self.duplicates[j].1.push(u))),
                }
            }
        }
    }

    /// The outcome of registering `path` with `size`.
    pub open spec fn register(self, path: Seq<char>, size: u64) -> Result<CollectionModel, RegisterError> {
        match classify(encode_utf8(path)) {
            Ok((stem, f)) => Ok(self.place(decode_utf8(stem), f, new_file(path, size))),
            Err(e) => Err(e),
        }
    }
}

/// `h` is a digest that `f` may return for some string spelling `path`.
pub open spec fn digest_of_path<F: Fn(&String) -> SerializableHash>(
    f: F,
    path: Seq<char>,
    h: Seq<u8>,
) -> bool {
    exists|s: String, d: SerializableHash| s@ == path && d@ == h && #[trigger] call_ensures(f, (&s,), d)
}

/// `a` is `b` with a digest attached: a digest already there is kept, a
/// missing one is one that `f` returned for the file's path.
pub open spec fn file_hashed<F: Fn(&String) -> SerializableHash>(b: FileModel, a: FileModel, f: F) -> bool {
    &&& a.path == b.path
    &&& a.size == b.size
    &&& a.hash is Some
    &&& b.hash is Some ==> a.hash == b.hash
    &&& b.hash is None ==> digest_of_path(f, b.path, a.hash->0)
}

pub open spec fn slot_hashed<F: Fn(&String) -> SerializableHash>(
    b: Option<FileModel>,
    a: Option<FileModel>,
    f: F,
) -> bool {
    match (b, a) {
        (Some(x), Some(y)) => file_hashed(x, y, f),
        (None, None) => true,
        _ => false,
    }
}

/// `a` is `b` with every occupied slot hashed.
pub open spec fn unit_hashed<F: Fn(&String) -> SerializableHash>(b: UnitModel, a: UnitModel, f: F) -> bool {
    &&& a.stem == b.stem
    &&& slot_hashed(b.jpg, a.jpg, f)
    &&& slot_hashed(b.raw, a.raw, f)
}

pub open spec fn units_hashed<F: Fn(&String) -> SerializableHash>(
    b: Seq<UnitModel>,
    a: Seq<UnitModel>,
    f: F,
) -> bool {
    a.len() == b.len() && forall|i: int| 0 <= i < b.len() ==> unit_hashed(#[trigger] b[i], a[i], f)
}

impl CollectionModel {
    /// `a` is `self` with every file of every unit, primary or duplicate, hashed.
    pub open spec fn hashed_into<F: Fn(&String) -> SerializableHash>(self, a: CollectionModel, f: F) -> bool {
        &&& units_hashed(self.primary, a.primary, f)
        &&& a.duplicates.len() == self.duplicates.len()
        &&& forall|j: int|
            0 <= j < self.duplicates.len() ==> (#[trigger] a.duplicates[j]).0 == self.duplicates[j].0
                && units_hashed(self.duplicates[j].1, a.duplicates[j].1, f)
    }
}

proof fn lemma_hashed_keeps_wf<F: Fn(&String) -> SerializableHash>(
    b: CollectionModel,
    a: CollectionModel,
    f: F,
)
    requires
        b.wf(),
        b.hashed_into(a, f),
    ensures
        a.wf(),
{
    assert forall|i: int| 0 <= i < b.primary.len() implies (#[trigger] a.primary[i]).stem
        == b.primary[i].stem by {
        assert(unit_hashed(b.primary[i], a.primary[i], f));
    }
    assert forall|j: int| 0 <= j < a.duplicates.len() implies stem_index(
        a.primary,
        (#[trigger] a.duplicates[j]).0,
    ) >= 0 by {
        assert(a.duplicates[j].0 == b.duplicates[j].0);
        let c = stem_index(b.primary, b.duplicates[j].0);
        assert(a.primary[c].stem == b.duplicates[j].0);
    }
    assert forall|j: int, k: int|
        0 <= j < a.duplicates.len() && 0 <= k < a.duplicates[j].1.len() implies (
        #[trigger] a.duplicates[j].1[k]).stem == a.duplicates[j].0 by {
        assert(a.duplicates[j].0 == b.duplicates[j].0);
        assert(units_hashed(b.duplicates[j].1, a.duplicates[j].1, f));
        assert(unit_hashed(b.duplicates[j].1[k], a.duplicates[j].1[k], f));
    }
    assert forall|j: int, k: int| 0 <= j < k < a.duplicates.len() implies (
    #[trigger] a.duplicates[j]).0 != (#[trigger] a.duplicates[k]).0 by {
        assert(a.duplicates[j].0 == b.duplicates[j].0);
        assert(a.duplicates[k].0 == b.duplicates[k].0);
    }
}

fn hash_slot<F: Fn(&String) -> SerializableHash>(slot: &mut Option<PhotoFile>, get_hash: &F)
    requires
        forall|s: &String| call_requires(*get_hash, (s,)),
    ensures
        slot_hashed(file_view(*old(slot)), file_view(*final(slot)), *get_hash),
{
    if let Some(p) = slot {
        if p.hash.is_none() {
            let h = get_hash(&p.path);
            proof {
                assert(call_ensures(*get_hash, (&p.path,), h));
            }
            p.add_hash(h);
        }
    }
}

impl PhotoFile {
    /// A file found at `path` with `size` bytes, not hashed yet.
    pub fn new(path: &str, size: u64) -> (r: PhotoFile)
        ensures
            r@ == new_file(path@, size),
    {
        PhotoFile { path: path.to_owned(), size, hash: None }
    }

    fn add_hash(&mut self, hash: SerializableHash)
        ensures
            final(self)@ == (FileModel { hash: Some(hash@), ..old(self)@ }),
    {
        self.hash = Some(hash);
    }
}

impl PhotoElement {
    /// An empty unit for `stem`.
    pub fn new(stem: String) -> (r: PhotoElement)
        ensures
            r@ == (UnitModel { stem: stem@, jpg: None, raw: None }),
    {
        PhotoElement { stem, jpg: None, raw: None }
    }

    /// Puts `p` in the lossy slot, replacing what was there.
    pub fn add_jpg(&mut self, p: PhotoFile)
        ensures
            final(self)@ == fill_slot(old(self)@, Format::Lossy, p@),
    {
        self.jpg = Some(p);
    }

    /// Puts `p` in the raw slot, replacing what was there.
    pub fn add_raw(&mut self, p: PhotoFile)
        ensures
            final(self)@ == fill_slot(old(self)@, Format::Raw, p@),
    {
        self.raw = Some(p);
    }

    fn add(&mut self, f: Format, p: PhotoFile)
        ensures
            final(self)@ == fill_slot(old(self)@, f, p@),
    {
        match f {
            Format::Lossy => self.add_jpg(p),
            Format::Raw => self.add_raw(p),
        }
    }

    /// Attaches a digest from `get_hash` to each occupied slot that has none.
    pub fn obtain_hashes<F: Fn(&String) -> SerializableHash>(&mut self, get_hash: &F)
        requires
            forall|s: &String| call_requires(*get_hash, (s,)),
        ensures
            unit_hashed(old(self)@, final(self)@, *get_hash),
    {
        hash_slot(&mut self.jpg, get_hash);
        hash_slot(&mut self.raw, get_hash);
    }

    fn has(&self, f: Format) -> (r: bool)
        ensures
            r == (slot(self@, f) is Some),
    {
        match f {
            Format::Lossy => self.jpg.is_some(),
            Format::Raw => self.raw.is_some(),
        }
    }
}

impl PhotoCollection {
    pub closed spec fn wf(&self) -> bool {
        self@.wf()
    }

    /// An empty collection.
    pub fn new() -> (r: PhotoCollection)
        ensures
            r.wf(),
            r@.primary.len() == 0,
            r@.duplicates.len() == 0,
    {
        let r = PhotoCollection { file_map: Vec::new(), duplicates: Vec::new() };
        assert(r@.primary =~= Seq::<UnitModel>::empty());
        r
    }

    fn find_primary(&self, stem: &String) -> (r: Option<usize>)
        requires
            self.wf(),
        ensures
            match r {
                Some(i) => i == stem_index(self@.primary, stem@) && i < self@.primary.len(),
                None => stem_index(self@.primary, stem@) == -1,
            },
    {
        let ghost m = self@;
        let mut i: usize = 0;
        while i < self.file_map.len()
            invariant
                m == self@,
                m.wf(),
                i <= self.file_map@.len(),
                m.primary.len() == self.file_map@.len(),
                forall|k: int| 0 <= k < i ==> (#[trigger] m.primary[k]).stem != stem@,
            decreases self.file_map@.len() - i,
        {
            assert(m.primary[i as int] == self.file_map@[i as int]@);
            if self.file_map[i].stem == *stem {
                proof {
                    assert(m.primary[i as int].stem == stem@);
                    let c = stem_index(m.primary, stem@);
                    assert(0 <= c < m.primary.len() && m.primary[c].stem == stem@);
                    if c > i {
                        assert(m.primary[i as int].stem != m.primary[c].stem);
                    }
                }
                return Some(i);
            }
            i = i + 1;
        }
        None
    }

    fn find_duplicates(&self, stem: &String) -> (r: Option<usize>)
        requires
            self.wf(),
        ensures
            match r {
                Some(j) => j == duplicate_index(self@.duplicates, stem@) && j < self@.duplicates.len(),
                None => duplicate_index(self@.duplicates, stem@) == -1,
            },
    {
        let ghost m = self@;
        let mut j: usize = 0;
        while j < self.duplicates.len()
            invariant
                m == self@,
                m.wf(),
                j <= self.duplicates@.len(),
                m.duplicates.len() == self.duplicates@.len(),
                forall|k: int| 0 <= k < j ==> (#[trigger] m.duplicates[k]).0 != stem@,
            decreases self.duplicates@.len() - j,
        {
            assert(m.duplicates[j as int].0 == self.duplicates@[j as int].0@);
            if self.duplicates[j].0 == *stem {
                proof {
                    assert(m.duplicates[j as int].0 == stem@);
                    let c = duplicate_index(m.duplicates, stem@);
                    assert(0 <= c < m.duplicates.len() && m.duplicates[c].0 == stem@);
                    if c > j {
                        assert(m.duplicates[j as int].0 != m.duplicates[c].0);
                    }
                }
                return Some(j);
            }
            j = j + 1;
        }
        None
    }

    /// Registers the file at `path`, of `size` bytes, under its stem.
    ///
    /// A new stem gets a new primary unit. A known stem whose primary unit
    /// still has the slot for this format free gets it filled. A file whose
    /// slot is already taken is never written over: it goes, in a fresh unit
    /// of its own, to the end of the stem's duplicate list. On error nothing
    /// changes.
    pub fn add_file(&mut self, path: &str, size: u64) -> (r: Result<(), RegisterError>)
        requires
            old(self).wf(),
        ensures
            final(self).wf(),
            match old(self)@.register(path@, size) {
                Ok(m) => r is Ok && final(self)@ == m,
                Err(e) => r == Err::<(), RegisterError>(e) && final(self)@ == old(self)@,
            },
    {
        let ghost m = self@;
        let (stem, format) = match split_path(path) {
            Ok(x) => x,
            Err(e) => {
                return Err(e);
            },
        };
        assert(path.spec_bytes() == encode_utf8(path@));
        let pf = PhotoFile::new(path, size);
        let ghost file = pf@;
        let ghost u = unit_with(stem@, format, file);
        assert(m.register(path@, size) == Ok::<CollectionModel, RegisterError>(m.place(stem@, format, file)));
        match self.find_primary(&stem) {
            None => {
                let mut e = PhotoElement::new(stem);
                e.add(format, pf);
                assert(e@ == u);
                self.file_map.push(e);
                proof {
                    assert(self@.primary =~= m.primary.push(u));
                    assert(self@.duplicates == m.duplicates);
                    assert forall|j: int| 0 <= j < m.duplicates.len() implies stem_index(
                        self@.primary,
                        #[trigger] m.duplicates[j].0,
                    ) >= 0 by {
                        let c = stem_index(m.primary, m.duplicates[j].0);
                        assert(self@.primary[c].stem == m.duplicates[j].0);
                    }
                }
            },
            Some(i) => {
                if !self.file_map[i].has(format) {
                    self.file_map[i].add(format, pf);
                    proof {
                        assert(self@.primary =~= m.primary.update(
                            i as int,
                            fill_slot(m.primary[i as int], format, file),
                        ));
                        assert(self@.duplicates == m.duplicates);
                        assert forall|j: int| 0 <= j < m.duplicates.len() implies stem_index(
                            self@.primary,
                            #[trigger] m.duplicates[j].0,
                        ) >= 0 by {
                            let c = stem_index(m.primary, m.duplicates[j].0);
                            assert(self@.primary[c].stem == m.duplicates[j].0);
                        }
                    }
                } else {
                    let mut e = PhotoElement::new(stem.clone());
                    e.add(format, pf);
                    assert(e@ == u);
                    match self.find_duplicates(&stem) {
                        None => {
                            let mut v: Vec<PhotoElement> = Vec::new();
                            v.push(e);
                            self.duplicates.push((stem, v));
                            proof {
                                assert(units_view(v@) =~= seq![u]);
                                assert(self@.duplicates =~= m.duplicates.push((stem@, seq![u])));
                                assert(self@.primary == m.primary);
                            }
                        },
                        Some(j) => {
                            self.duplicates[j].1.push(e);
                            proof {
                                assert(self@.duplicates[j as int].1 =~= m.duplicates[j as int].1.push(u));
                                assert(self@.duplicates =~= m.duplicates.update(
                                    j as int,
                                    (stem@, m.duplicates[j as int].1.push(u)),
                                ));
                                assert(self@.primary == m.primary);
                            }
                        },
                    }
                }
            },
        }
        Ok(())
    }

    /// Attaches a digest from `get_hash` to every file, in primary and
    /// duplicate units alike, that has none yet; files already hashed are left
    /// as they are.
    pub fn obtain_hashes<F: Fn(&String) -> SerializableHash>(&mut self, get_hash: F)
        requires
            old(self).wf(),
            forall|s: &String| call_requires(get_hash, (s,)),
        ensures
            final(self).wf(),
            old(self)@.hashed_into(final(self)@, get_hash),
    {
        let ghost m = self@;
        let ghost f0 = self.file_map@;
        let ghost d0 = self.duplicates@;
        let n = self.file_map.len();
        let mut i: usize = 0;
        while i < n
            invariant
                n == self.file_map@.len(),
                f0.len() == n,
                i <= n,
                self.duplicates@ == d0,
                forall|s: &String| call_requires(get_hash, (s,)),
                forall|k: int| 0 <= k < i ==> unit_hashed(#[trigger] f0[k]@, self.file_map@[k]@, get_hash),
                forall|k: int| i <= k < n ==> #[trigger] self.file_map@[k] == f0[k],
            decreases n - i,
        {
            self.file_map[i].obtain_hashes(&get_hash);
            i = i + 1;
        }
        assert(units_hashed(m.primary, self@.primary, get_hash)) by {
            assert forall|k: int| 0 <= k < m.primary.len() implies unit_hashed(
                #[trigger] m.primary[k],
                self@.primary[k],
                get_hash,
            ) by {
                assert(unit_hashed(f0[k]@, self.file_map@[k]@, get_hash));
            }
        }
        let ghost p1 = self@.primary;
        let dn = self.duplicates.len();
        let mut j: usize = 0;
        while j < dn
            invariant
                dn == self.duplicates@.len(),
                d0.len() == dn,
                j <= dn,
                self@.primary == p1,
                forall|s: &String| call_requires(get_hash, (s,)),
                forall|k: int| 0 <= k < dn ==> (#[trigger] self.duplicates@[k]).0 == d0[k].0,
                forall|k: int|
                    0 <= k < j ==> units_hashed(
                        units_view((#[trigger] d0[k]).1@),
                        units_view(self.duplicates@[k].1@),
                        get_hash,
                    ),
                forall|k: int| j <= k < dn ==> #[trigger] self.duplicates@[k] == d0[k],
            decreases dn - j,
        {
            let len = self.duplicates[j].1.len();
            let ghost v0 = d0[j as int].1@;
            let ghost dj = self.duplicates@;
            let mut k: usize = 0;
            while k < len
                invariant
                    dn == self.duplicates@.len(),
                    j < dn,
                    len == v0.len(),
                    v0 == d0[j as int].1@,
                    k <= len,
                    self@.primary == p1,
                    forall|s: &String| call_requires(get_hash, (s,)),
                    self.duplicates@[j as int].0 == d0[j as int].0,
                    self.duplicates@[j as int].1@.len() == len,
                    forall|q: int| 0 <= q < dn && q != j ==> #[trigger] self.duplicates@[q] == dj[q],
                    dj.len() == dn,
                    forall|q: int| 0 <= q < k ==> unit_hashed(#[trigger] v0[q]@, self.duplicates@[j as int].1@[q]@, get_hash),
                    forall|q: int| k <= q < len ==> #[trigger] self.duplicates@[j as int].1@[q] == v0[q],
                decreases len - k,
            {
                self.duplicates[j].1[k].obtain_hashes(&get_hash);
                k = k + 1;
            }
            proof {
                assert forall|q: int| 0 <= q < len implies unit_hashed(
                    #[trigger] units_view(v0)[q],
                    units_view(self.duplicates@[j as int].1@)[q],
                    get_hash,
                ) by {
                    assert(unit_hashed(v0[q]@, self.duplicates@[j as int].1@[q]@, get_hash));
                }
            }
            j = j + 1;
        }
        proof {
            let a = self@;
            assert forall|q: int| 0 <= q < m.duplicates.len() implies (#[trigger] a.duplicates[q]).0
                == m.duplicates[q].0 && units_hashed(m.duplicates[q].1, a.duplicates[q].1, get_hash) by {
                assert(units_hashed(units_view(d0[q].1@), units_view(self.duplicates@[q].1@), get_hash));
            }
            lemma_hashed_keeps_wf(m, a, get_hash);
        }
    }

    /// Number of distinct stems registered.
    pub fn get_entries_number(&self) -> (r: usize)
        ensures
            r == self@.entry_count(),
    {
        self.file_map.len()
    }

    /// Number of stems that collided at least once (not the number of
    /// colliding files).
    pub fn get_duplicates_number(&self) -> (r: usize)
        ensures
            r == self@.duplicate_count(),
    {
        self.duplicates.len()
    }

    /// The primary units, one per stem, in registration order.
    pub fn entries(&self) -> (r: &Vec<PhotoElement>)
        ensures
            units_view(r@) == self@.primary,
    {
        &self.file_map
    }

    /// Each colliding stem with its duplicate units, in order of first collision.
    pub fn duplicate_lists(&self) -> (r: &Vec<(String, Vec<PhotoElement>)>)
        ensures
            duplicates_view(r@) == self@.duplicates,
    {
        &self.duplicates
    }

    /// The primary unit of `stem`, if that stem was registered.
    pub fn get_element(&self, stem: &str) -> (r: Option<&PhotoElement>)
        requires
            self.wf(),
        ensures
            match r {
                Some(e) => stem_index(self@.primary, stem@) >= 0 && e@ == self@.primary[stem_index(
                    self@.primary,
                    stem@,
                )],
                None => stem_index(self@.primary, stem@) == -1,
            },
    {
        let key = stem.to_owned();
        match self.find_primary(&key) {
            Some(i) => Some(&self.file_map[i]),
            None => None,
        }
    }

    /// The duplicate units of `stem`, in registration order, if it collided.
    pub fn get_duplicates(&self, stem: &str) -> (r: Option<&Vec<PhotoElement>>)
        requires
            self.wf(),
        ensures
            match r {
                Some(v) => duplicate_index(self@.duplicates, stem@) >= 0 && units_view(v@)
                    == self@.duplicates[duplicate_index(self@.duplicates, stem@)].1,
                None => duplicate_index(self@.duplicates, stem@) == -1,
            },
    {
        let key = stem.to_owned();
        match self.find_duplicates(&key) {
            Some(j) => Some(&self.duplicates[j].1),
            None => None,
        }
    }
}

/// The stem a path is grouped under, when it has one.
pub open spec fn path_stem(path: Seq<char>) -> Seq<char> {
    decode_utf8(crate::paths::stem_of(encode_utf8(path)))
}

/// The slot a path goes to, when its extension is supported.
pub open spec fn path_format(path: Seq<char>) -> Format {
    crate::paths::format_of(encode_utf8(path))->0
}

/// Registering a file under a stem not seen before adds exactly one entry and
/// leaves the number of colliding stems as it was.
pub proof fn lemma_fresh_stem_adds_one_entry(c: CollectionModel, path: Seq<char>, size: u64)
    requires
        c.register(path, size) is Ok,
        stem_index(c.primary, path_stem(path)) == -1,
    ensures
        c.register(path, size)->Ok_0.entry_count() == c.entry_count() + 1,
        c.register(path, size)->Ok_0.duplicate_count() == c.duplicate_count(),
{
}

/// Registering a file whose stem is known and whose slot in the stem's
/// primary unit is taken leaves the primary units, and so the entry count,
/// exactly as they were, and lengthens that stem's duplicate list by one.
pub proof fn lemma_collision_lengthens_duplicates(c: CollectionModel, path: Seq<char>, size: u64)
    requires
        c.wf(),
        c.register(path, size) is Ok,
        stem_index(c.primary, path_stem(path)) >= 0,
        slot(c.primary[stem_index(c.primary, path_stem(path))], path_format(path)) is Some,
    ensures
        c.register(path, size)->Ok_0.primary == c.primary,
        c.register(path, size)->Ok_0.entry_count() == c.entry_count(),
        c.register(path, size)->Ok_0.duplicates_of(path_stem(path)) == c.duplicates_of(path_stem(path)) + 1,
{
    lemma_collision_appends_fresh_unit(c, path, size);
}

/// Registering a file whose slot is already taken in its stem's primary unit
/// never overwrites that slot: the file lands alone, unhashed, in a fresh unit
/// at the end of the stem's duplicate list, and every other list is kept.
pub proof fn lemma_collision_appends_fresh_unit(c: CollectionModel, path: Seq<char>, size: u64)
    requires
        c.wf(),
        c.register(path, size) is Ok,
        stem_index(c.primary, path_stem(path)) >= 0,
        slot(c.primary[stem_index(c.primary, path_stem(path))], path_format(path)) is Some,
    ensures
        ({
            let a = c.register(path, size)->Ok_0;
            let stem = path_stem(path);
            let j = duplicate_index(a.duplicates, stem);
            &&& a.primary == c.primary
            &&& 0 <= j < a.duplicates.len()
            &&& a.duplicates[j].1.last() == unit_with(stem, path_format(path), new_file(path, size))
            &&& a.duplicates[j].1.drop_last() == (if duplicate_index(c.duplicates, stem) < 0 {
                Seq::<UnitModel>::empty()
            } else {
                c.duplicates[duplicate_index(c.duplicates, stem)].1
            })
            &&& forall|q: int|
                0 <= q < c.duplicates.len() && c.duplicates[q].0 != stem ==> #[trigger] a.duplicates[q]
                    == c.duplicates[q]
        }),
{
    let a = c.register(path, size)->Ok_0;
    let stem = path_stem(path);
    let u = unit_with(stem, path_format(path), new_file(path, size));
    let j0 = duplicate_index(c.duplicates, stem);
    if j0 < 0 {
        let n = c.duplicates.len() as int;
        assert(a.duplicates[n].0 == stem);
        let j = duplicate_index(a.duplicates, stem);
        if j != n {
            assert(0 <= j < n && c.duplicates[j].0 == stem);
        }
        assert(a.duplicates[n].1.drop_last() =~= Seq::<UnitModel>::empty());
    } else {
        assert(a.duplicates[j0].0 == stem);
        let j = duplicate_index(a.duplicates, stem);
        if j != j0 {
            assert(a.duplicates[j].0 == c.duplicates[j].0);
        }
        assert(a.duplicates[j0].1.drop_last() =~= c.duplicates[j0].1);
    }
}

/// Attaching digests a second time changes nothing: every file already has
/// one, and a file that has a digest keeps it.
pub proof fn lemma_hashing_twice_changes_nothing<F: Fn(&String) -> SerializableHash>(
    c0: CollectionModel,
    c1: CollectionModel,
    c2: CollectionModel,
    f: F,
)
    requires
        c0.hashed_into(c1, f),
        c1.hashed_into(c2, f),
    ensures
        c2 == c1,
{
    assert forall|i: int| 0 <= i < c1.primary.len() implies #[trigger] c2.primary[i] == c1.primary[i] by {
        assert(unit_hashed(c0.primary[i], c1.primary[i], f));
        assert(unit_hashed(c1.primary[i], c2.primary[i], f));
    }
    assert(c2.primary =~= c1.primary);
    assert forall|j: int| 0 <= j < c1.duplicates.len() implies #[trigger] c2.duplicates[j] == c1.duplicates[j] by {
        assert(units_hashed(c0.duplicates[j].1, c1.duplicates[j].1, f));
        assert(units_hashed(c1.duplicates[j].1, c2.duplicates[j].1, f));
        assert forall|k: int| 0 <= k < c1.duplicates[j].1.len() implies #[trigger] c2.duplicates[j].1[k]
            == c1.duplicates[j].1[k] by {
            assert(unit_hashed(c0.duplicates[j].1[k], c1.duplicates[j].1[k], f));
            assert(unit_hashed(c1.duplicates[j].1[k], c2.duplicates[j].1[k], f));
        }
        assert(c2.duplicates[j].1 =~= c1.duplicates[j].1);
    }
    assert(c2.duplicates =~= c1.duplicates);
}

} // verus!
