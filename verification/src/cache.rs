//! CPU cache descriptions, read from the texts that describe one cache
//! (`level`, `type`, `size`, `coherency_line_size`, `ways_of_associativity`).
use vstd::prelude::*;
use crate::text::{IntError, parse_usize, trim, chars_of, trim_chars, parse_usize_chars, chars_equal};

verus! {

/// Kind of a CPU cache.
#[derive(Copy, Clone, Debug, PartialEq, Eq, Structural)]
pub enum CacheType {
    L1D,
    L1I,
    L2,
    L3,
}

impl CacheType {
    /// The short name of the cache kind.
    pub open spec fn name(self) -> Seq<char> {
        match self {
            CacheType::L1D => "L1D"@,
            CacheType::L1I => "L1I"@,
            CacheType::L2 => "L2"@,
            CacheType::L3 => "L3"@,
        }
    }

    /// The short name of the cache kind: `L1D`, `L1I`, `L2` or `L3`.
    pub fn as_str(&self) -> (s: &str)
        ensures
            s@ == self.name(),
    {
        match self {
            CacheType::L1D => "L1D",
            CacheType::L1I => "L1I",
            CacheType::L2 => "L2",
            CacheType::L3 => "L3",
        }
    }
}

/// One CPU cache.
#[derive(Clone, Copy, Debug, PartialEq, Eq, Structural)]
pub struct Cache {
    pub ty: CacheType,
    /// Size in bytes.
    pub size: usize,
    /// Size of a cache line in bytes.
    pub coherency_line_size: usize,
    /// Number of ways of a set.
    pub ways_of_associativity: usize,
}

impl Cache {
    /// Number of sets: the size over the line size over the number of ways.
    pub fn sets(&self) -> (n: usize)
        requires
            self.coherency_line_size > 0,
            self.ways_of_associativity > 0,
        ensures
            n == self.size / self.coherency_line_size / self.ways_of_associativity,
    {
        self.size / self.coherency_line_size / self.ways_of_associativity
    }
}

/// The files that describe one cache.
#[derive(Clone, Copy, Debug, PartialEq, Eq, Structural)]
pub enum CacheFile {
    Level,
    Type,
    Size,
    CoherencyLineSize,
    WaysOfAssociativity,
}

/// Why a cache description could not be read.
#[derive(Clone, Copy, Debug, PartialEq, Eq, Structural)]
pub enum CacheInfoError {
    /// The file could not be read.
    Unreadable(CacheFile),
    /// The file does not hold a number.
    BadInt(CacheFile, IntError),
    /// The level and type name no kind of cache; the level is given.
    UnknownType { level: usize },
    /// The size does not end in `K`.
    InvalidSize,
}

/// The texts of the files that describe one cache; `None` where a file could
/// not be read.
pub struct CacheFiles {
    pub level: Option<String>,
    pub ty: Option<String>,
    pub size: Option<String>,
    pub coherency_line_size: Option<String>,
    pub ways_of_associativity: Option<String>,
}

/// What a file holding one number gives.
pub open spec fn int_file_result(text: Option<String>, which: CacheFile) -> Result<
    usize,
    CacheInfoError,
> {
    match text {
        None => Err(CacheInfoError::Unreadable(which)),
        Some(t) => match parse_usize(trim(t@)) {
            Ok(v) => Ok(v),
            Err(e) => Err(CacheInfoError::BadInt(which, e)),
        },
    }
}

/// The kind of cache that a level and a (trimmed) type name give.
pub open spec fn cache_type_of(level: usize, ty: Seq<char>) -> Option<CacheType> {
    if level == 1 && ty == seq!['D', 'a', 't', 'a'] {
        Some(CacheType::L1D)
    } else if level == 1 && ty == seq![
        'I',
        'n',
        's',
        't',
        'r',
        'u',
        'c',
        't',
        'i',
        'o',
        'n',
    ] {
        Some(CacheType::L1I)
    } else if level == 2 && ty == seq!['U', 'n', 'i', 'f', 'i', 'e', 'd'] {
        Some(CacheType::L2)
    } else if level == 3 && ty == seq!['U', 'n', 'i', 'f', 'i', 'e', 'd'] {
        Some(CacheType::L3)
    } else {
        None
    }
}

/// The level and kind of cache that the first two files give.
pub open spec fn kind_result(files: CacheFiles) -> Result<(usize, CacheType), CacheInfoError> {
    match int_file_result(files.level, CacheFile::Level) {
        Err(e) => Err(e),
        Ok(level) => match files.ty {
            None => Err(CacheInfoError::Unreadable(CacheFile::Type)),
            Some(t) => match cache_type_of(level, trim(t@)) {
                None => Err(CacheInfoError::UnknownType { level }),
                Some(ty) => Ok((level, ty)),
            },
        },
    }
}

/// The number of kibibytes that a size text names, if it names one: a
/// number followed by `K`, with whitespace around.
pub open spec fn size_kib(text: Seq<char>) -> Result<usize, CacheInfoError> {
    let t = trim(text);
    if t.len() > 0 && t.last() == 'K' {
        match parse_usize(t.drop_last()) {
            Ok(n) => Ok(n),
            Err(e) => Err(CacheInfoError::BadInt(CacheFile::Size, e)),
        }
    } else {
        Err(CacheInfoError::InvalidSize)
    }
}

/// What the size file gives: its size in bytes.
pub open spec fn size_result(text: Option<String>) -> Result<usize, CacheInfoError> {
    match text {
        None => Err(CacheInfoError::Unreadable(CacheFile::Size)),
        Some(t) => match size_kib(t@) {
            Ok(n) => Ok((n * 1024) as usize),
            Err(e) => Err(e),
        },
    }
}

/// The size in bytes fits in a `usize` wherever the size file is read.
pub open spec fn size_fits(files: CacheFiles) -> bool {
    kind_result(files) is Ok ==> (files.size matches Some(t) ==> (size_kib(t@) matches Ok(n) ==> n
        * 1024 <= usize::MAX))
}

/// The cache that the files describe, or the first error, in the order in
/// which the files are read: level, type, size, line size, ways.
pub open spec fn cache_info_result(files: CacheFiles) -> Result<Cache, CacheInfoError> {
    match kind_result(files) {
        Err(e) => Err(e),
        Ok((level, ty)) => match size_result(files.size) {
            Err(e) => Err(e),
            Ok(size) => match int_file_result(
                files.coherency_line_size,
                CacheFile::CoherencyLineSize,
            ) {
                Err(e) => Err(e),
                Ok(line) => match int_file_result(
                    files.ways_of_associativity,
                    CacheFile::WaysOfAssociativity,
                ) {
                    Err(e) => Err(e),
                    Ok(ways) => Ok(
                        Cache {
                            ty,
                            size,
                            coherency_line_size: line,
                            ways_of_associativity: ways,
                        },
                    ),
                },
            },
        },
    }
}

/// Reads a number in decimal from `text`, with whitespace around it allowed.
pub fn parse_int(text: &str) -> (r: Result<usize, IntError>)
    ensures
        r == parse_usize(trim(text@)),
{
    let chars = chars_of(text);
    let trimmed = trim_chars(chars.as_slice());
    parse_usize_chars(trimmed.as_slice())
}

fn int_file(text: &Option<String>, which: CacheFile) -> (r: Result<usize, CacheInfoError>)
    ensures
        r == int_file_result(*text, which),
{
    match text {
        None => Err(CacheInfoError::Unreadable(which)),
        Some(t) => match parse_int(t.as_str()) {
            Ok(v) => Ok(v),
            Err(e) => Err(CacheInfoError::BadInt(which, e)),
        },
    }
}

fn cache_type(level: usize, ty: &[char]) -> (r: Option<CacheType>)
    ensures
        r == cache_type_of(level, ty@),
{
    let data = ['D', 'a', 't', 'a'];
    let instruction = ['I', 'n', 's', 't', 'r', 'u', 'c', 't', 'i', 'o', 'n'];
    let unified = ['U', 'n', 'i', 'f', 'i', 'e', 'd'];
    assert(data@ =~= seq!['D', 'a', 't', 'a']);
    assert(instruction@ =~= seq!['I', 'n', 's', 't', 'r', 'u', 'c', 't', 'i', 'o', 'n']);
    assert(unified@ =~= seq!['U', 'n', 'i', 'f', 'i', 'e', 'd']);
    if level == 1 && chars_equal(ty, &data) {
        Some(CacheType::L1D)
    } else if level == 1 && chars_equal(ty, &instruction) {
        Some(CacheType::L1I)
    } else if level == 2 && chars_equal(ty, &unified) {
        Some(CacheType::L2)
    } else if level == 3 && chars_equal(ty, &unified) {
        Some(CacheType::L3)
    } else {
        None
    }
}

fn size_bytes(text: &Option<String>) -> (r: Result<usize, CacheInfoError>)
    requires
        text matches Some(t) ==> (size_kib(t@) matches Ok(n) ==> n * 1024 <= usize::MAX),
    ensures
        r == size_result(*text),
{
    match text {
        None => Err(CacheInfoError::Unreadable(CacheFile::Size)),
        Some(t) => {
            let chars = chars_of(t.as_str());
            let trimmed = trim_chars(chars.as_slice());
            let n = trimmed.len();
            if n > 0 && trimmed[n - 1] == 'K' {
                let mut digits: Vec<char> = Vec::with_capacity(n - 1);
                let mut i: usize = 0;
                while i < n - 1
                    invariant
                        n == trimmed@.len(),
                        n > 0,
                        i <= n - 1,
                        digits@ == trimmed@.subrange(0, i as int),
                    decreases n - 1 - i,
                {
                    digits.push(trimmed[i]);
                    i = i + 1;
                    assert(digits@ =~= trimmed@.subrange(0, i as int));
                }
                assert(digits@ =~= trimmed@.drop_last());
                match parse_usize_chars(digits.as_slice()) {
                    Ok(kib) => Ok(kib * 1024),
                    Err(e) => Err(CacheInfoError::BadInt(CacheFile::Size, e)),
                }
            } else {
                Err(CacheInfoError::InvalidSize)
            }
        },
    }
}

/// Reads the description of one cache out of the texts of its files.
pub fn get_cache_info(files: &CacheFiles) -> (r: Result<Cache, CacheInfoError>)
    requires
        size_fits(*files),
    ensures
        r == cache_info_result(*files),
{
    let level = match int_file(&files.level, CacheFile::Level) {
        Ok(v) => v,
        Err(e) => return Err(e),
    };
    let ty = match &files.ty {
        None => return Err(CacheInfoError::Unreadable(CacheFile::Type)),
        Some(t) => {
            let chars = chars_of(t.as_str());
            let trimmed = trim_chars(chars.as_slice());
            match cache_type(level, trimmed.as_slice()) {
                Some(ty) => ty,
                None => return Err(CacheInfoError::UnknownType { level }),
            }
        },
    };
    let size = match size_bytes(&files.size) {
        Ok(v) => v,
        Err(e) => return Err(e),
    };
    let coherency_line_size = match int_file(
        &files.coherency_line_size,
        CacheFile::CoherencyLineSize,
    ) {
        Ok(v) => v,
        Err(e) => return Err(e),
    };
    let ways_of_associativity = match int_file(
        &files.ways_of_associativity,
        CacheFile::WaysOfAssociativity,
    ) {
        Ok(v) => v,
        Err(e) => return Err(e),
    };
    Ok(Cache { ty, size, coherency_line_size, ways_of_associativity })
}

/// The first index directory that does not describe a cache, and why.
#[derive(Clone, Copy, Debug, PartialEq, Eq, Structural)]
pub struct CpuCacheError {
    pub index: usize,
    pub error: CacheInfoError,
}

/// The caches that the index directories describe, in order, or the first
/// error with its index.
pub open spec fn caches_result(indexes: Seq<CacheFiles>) -> Result<Seq<Cache>, CpuCacheError>
    decreases indexes.len(),
{
    if indexes.len() == 0 {
        Ok(Seq::empty())
    } else {
        match caches_result(indexes.drop_last()) {
            Err(e) => Err(e),
            Ok(caches) => match cache_info_result(indexes.last()) {
                Err(e) => Err(CpuCacheError { index: (indexes.len() - 1) as usize, error: e }),
                Ok(c) => Ok(caches.push(c)),
            },
        }
    }
}

/// Every size that is read fits in a `usize`.
pub open spec fn sizes_fit(indexes: Seq<CacheFiles>) -> bool {
    forall|i: int|
        0 <= i < indexes.len() && (#[trigger] caches_result(indexes.subrange(0, i))) is Ok
            ==> size_fits(indexes[i])
}

proof fn lemma_caches_error_extends(indexes: Seq<CacheFiles>, i: int)
    requires
        0 <= i <= indexes.len(),
        caches_result(indexes.subrange(0, i)) is Err,
    ensures
        caches_result(indexes) == caches_result(indexes.subrange(0, i)),
    decreases indexes.len() - i,
{
    if i < indexes.len() {
        assert(indexes.subrange(0, i + 1).drop_last() =~= indexes.subrange(0, i));
        lemma_caches_error_extends(indexes, i + 1);
    } else {
        assert(indexes.subrange(0, i) =~= indexes);
    }
}

/// A cache description that reads gives exactly what its files say: the
/// kind that the level and type name, a size in bytes of 1024 times the
/// number before `K` in the size file (whatever the kind), and the line size
/// and ways as written. And when every file says something valid, the
/// description reads.
pub proof fn lemma_cache_info_fields(files: CacheFiles)
    requires
        size_fits(files),
    ensures
        cache_info_result(files) is Ok ==> ({
            let c = cache_info_result(files)->Ok_0;
            let level = parse_usize(trim((files.level->0)@));
            let size = trim((files.size->0)@);
            let kib = parse_usize(size.drop_last());
            let line = parse_usize(trim((files.coherency_line_size->0)@));
            let ways = parse_usize(trim((files.ways_of_associativity->0)@));
            &&& files.level is Some && level is Ok
            &&& files.ty is Some && cache_type_of(level->Ok_0, trim((files.ty->0)@)) == Some(c.ty)
            &&& files.size is Some && size.len() > 0 && size.last() == 'K'
            &&& kib is Ok && c.size == (kib->Ok_0) * 1024
            &&& files.coherency_line_size is Some && line == Ok::<usize, IntError>(
                c.coherency_line_size,
            )
            &&& files.ways_of_associativity is Some && ways == Ok::<usize, IntError>(
                c.ways_of_associativity,
            )
        }),
        ({
            let level = parse_usize(trim((files.level->0)@));
            let size = trim((files.size->0)@);
            &&& files.level is Some && level is Ok
            &&& files.ty is Some && cache_type_of(level->Ok_0, trim((files.ty->0)@)) is Some
            &&& files.size is Some && size.len() > 0 && size.last() == 'K'
            &&& parse_usize(size.drop_last()) is Ok
            &&& files.coherency_line_size is Some
            &&& parse_usize(trim((files.coherency_line_size->0)@)) is Ok
            &&& files.ways_of_associativity is Some
            &&& parse_usize(trim((files.ways_of_associativity->0)@)) is Ok
        }) ==> cache_info_result(files) is Ok,
{
}

/// Reading the caches of a CPU succeeds with exactly one cache per index,
/// cache `i` being what index `i` describes; it fails at the first index
/// that does not describe a cache, with that index's error; and it succeeds
/// whenever every index describes a cache.
pub proof fn lemma_caches_per_index(indexes: Seq<CacheFiles>)
    requires
        indexes.len() <= usize::MAX,
    ensures
        caches_result(indexes) is Ok ==> ({
            let caches = caches_result(indexes)->Ok_0;
            &&& caches.len() == indexes.len()
            &&& forall|i: int|
                0 <= i < indexes.len() ==> cache_info_result(#[trigger] indexes[i]) == Ok::<
                    Cache,
                    CacheInfoError,
                >(caches[i])
        }),
        caches_result(indexes) is Err ==> ({
            let e = caches_result(indexes)->Err_0;
            &&& e.index < indexes.len()
            &&& cache_info_result(indexes[e.index as int]) == Err::<Cache, CacheInfoError>(e.error)
            &&& forall|i: int| 0 <= i < e.index ==> cache_info_result(#[trigger] indexes[i]) is Ok
        }),
        (forall|i: int| 0 <= i < indexes.len() ==> cache_info_result(#[trigger] indexes[i]) is Ok)
            ==> caches_result(indexes) is Ok,
    decreases indexes.len(),
{
    if indexes.len() > 0 {
        let p = indexes.drop_last();
        lemma_caches_per_index(p);
        assert forall|i: int| 0 <= i < p.len() implies #[trigger] p[i] == indexes[i] by {}
        assert(indexes.last() == indexes[indexes.len() - 1]);
        if forall|i: int| 0 <= i < indexes.len() ==> cache_info_result(#[trigger] indexes[i]) is Ok {
            assert forall|i: int| 0 <= i < p.len() implies cache_info_result(#[trigger] p[i]) is Ok by {
                assert(p[i] == indexes[i]);
            }
        }
        match caches_result(p) {
            Ok(caches) => {
                assert forall|i: int| 0 <= i < p.len() implies cache_info_result(#[trigger] indexes[i])
                    == Ok::<Cache, CacheInfoError>(caches[i]) by {
                    assert(p[i] == indexes[i]);
                }
                assert forall|i: int| 0 <= i < p.len() implies cache_info_result(#[trigger] indexes[i]) is Ok by {
                    assert(cache_info_result(indexes[i]) == Ok::<Cache, CacheInfoError>(caches[i]));
                }
            },
            Err(e) => {
                assert(p[e.index as int] == indexes[e.index as int]);
                assert forall|i: int| 0 <= i < e.index implies cache_info_result(#[trigger] indexes[i]) is Ok by {
                    assert(p[i] == indexes[i]);
                }
            },
        }
    }
}

/// Reads the caches of one CPU out of the texts of its cache index
/// directories, in index order, stopping at the first error.
pub fn get_cpu_cache(indexes: &[CacheFiles]) -> (r: Result<Vec<Cache>, CpuCacheError>)
    requires
        sizes_fit(indexes@),
    ensures
        match r {
            Ok(caches) => caches_result(indexes@) == Ok::<Seq<Cache>, CpuCacheError>(caches@),
            Err(e) => caches_result(indexes@) == Err::<Seq<Cache>, CpuCacheError>(e),
        },
{
    let mut ret: Vec<Cache> = Vec::new();
    let mut i: usize = 0;
    assert(indexes@.subrange(0, 0) =~= Seq::<CacheFiles>::empty());
    while i < indexes.len()
        invariant
            i <= indexes@.len(),
            sizes_fit(indexes@),
            caches_result(indexes@.subrange(0, i as int)) == Ok::<Seq<Cache>, CpuCacheError>(
                ret@,
            ),
        decreases indexes@.len() - i,
    {
        assert(indexes@.subrange(0, i + 1).drop_last() =~= indexes@.subrange(0, i as int));
        assert(indexes@.subrange(0, i + 1).last() == indexes@[i as int]);
        match get_cache_info(&indexes[i]) {
            Ok(c) => ret.push(c),
            Err(e) => {
                proof {
                    lemma_caches_error_extends(indexes@, i + 1);
                }
                return Err(CpuCacheError { index: i, error: e });
            },
        }
        i = i + 1;
    }
    assert(indexes@.subrange(0, i as int) =~= indexes@);
    Ok(ret)
}

} // verus!
