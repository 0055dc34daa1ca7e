use cache_latency::cache::{
    get_cache_info, get_cpu_cache, parse_int, Cache, CacheFile, CacheFiles, CacheInfoError,
    CacheType, CpuCacheError,
};
use cache_latency::text::IntError;

fn files(level: &str, ty: &str, size: &str, line: &str, ways: &str) -> CacheFiles {
    CacheFiles {
        level: Some(level.to_string()),
        ty: Some(ty.to_string()),
        size: Some(size.to_string()),
        coherency_line_size: Some(line.to_string()),
        ways_of_associativity: Some(ways.to_string()),
    }
}

#[test]
fn cache_type_names() {
    assert_eq!(CacheType::L1D.as_str(), "L1D");
    assert_eq!(CacheType::L1I.as_str(), "L1I");
    assert_eq!(CacheType::L2.as_str(), "L2");
    assert_eq!(CacheType::L3.as_str(), "L3");
}

#[test]
fn sets_of_a_cache() {
    let c = Cache {
        ty: CacheType::L1D,
        size: 32768,
        coherency_line_size: 64,
        ways_of_associativity: 8,
    };
    assert_eq!(c.sets(), 64);
    let c = Cache { ty: CacheType::L3, size: 1000, coherency_line_size: 64, ways_of_associativity: 3 };
    assert_eq!(c.sets(), 5);
}

#[test]
fn parse_int_reads_decimal_with_whitespace_around() {
    assert_eq!(parse_int(" 42\n"), Ok(42));
    assert_eq!(parse_int("+7"), Ok(7));
    assert_eq!(parse_int("\u{3000}12\u{a0}"), Ok(12));
    assert_eq!(parse_int("18446744073709551615"), Ok(usize::MAX));
}

#[test]
fn parse_int_errors() {
    assert_eq!(parse_int(""), Err(IntError::Empty));
    assert_eq!(parse_int("  \n"), Err(IntError::Empty));
    assert_eq!(parse_int("+"), Err(IntError::InvalidDigit));
    assert_eq!(parse_int("-5"), Err(IntError::InvalidDigit));
    assert_eq!(parse_int("1a"), Err(IntError::InvalidDigit));
    assert_eq!(parse_int("1 2"), Err(IntError::InvalidDigit));
    assert_eq!(parse_int("18446744073709551616"), Err(IntError::Overflow));
    // the first problem wins
    assert_eq!(parse_int("99999999999999999999a"), Err(IntError::Overflow));
    assert_eq!(parse_int("9a9999999999999999999"), Err(IntError::InvalidDigit));
}

#[test]
fn reads_each_kind_of_cache() {
    let c = get_cache_info(&files("1\n", "Data\n", "48K\n", "64\n", "12\n")).unwrap();
    assert_eq!(
        c,
        Cache { ty: CacheType::L1D, size: 48 * 1024, coherency_line_size: 64, ways_of_associativity: 12 }
    );
    let c = get_cache_info(&files("1", "Instruction", "32K", "64", "8")).unwrap();
    assert_eq!(c.ty, CacheType::L1I);
    let c = get_cache_info(&files("2", "Unified", "1280K", "64", "10")).unwrap();
    assert_eq!(c.ty, CacheType::L2);
    assert_eq!(c.size, 1280 * 1024);
    let c = get_cache_info(&files("3", " Unified ", "49152K", "64", "12")).unwrap();
    assert_eq!(c.ty, CacheType::L3);
}

#[test]
fn unknown_cache_kind() {
    let r = get_cache_info(&files("2", "Data", "48K", "64", "12"));
    assert_eq!(r, Err(CacheInfoError::UnknownType { level: 2 }));
    let r = get_cache_info(&files("4", "Unified", "48K", "64", "12"));
    assert_eq!(r, Err(CacheInfoError::UnknownType { level: 4 }));
}

#[test]
fn size_must_end_in_k() {
    let r = get_cache_info(&files("1", "Data", "48", "64", "12"));
    assert_eq!(r, Err(CacheInfoError::InvalidSize));
    let r = get_cache_info(&files("1", "Data", "48M", "64", "12"));
    assert_eq!(r, Err(CacheInfoError::InvalidSize));
    let r = get_cache_info(&files("1", "Data", "4xK", "64", "12"));
    assert_eq!(r, Err(CacheInfoError::BadInt(CacheFile::Size, IntError::InvalidDigit)));
    let r = get_cache_info(&files("1", "Data", "48 K", "64", "12"));
    assert_eq!(r, Err(CacheInfoError::BadInt(CacheFile::Size, IntError::InvalidDigit)));
}

#[test]
fn errors_come_in_file_order() {
    let mut f = files("x", "Nope", "48", "64", "12");
    assert_eq!(get_cache_info(&f), Err(CacheInfoError::BadInt(CacheFile::Level, IntError::InvalidDigit)));
    f.level = None;
    assert_eq!(get_cache_info(&f), Err(CacheInfoError::Unreadable(CacheFile::Level)));
    let mut f = files("1", "Data", "48K", "", "x");
    assert_eq!(
        get_cache_info(&f),
        Err(CacheInfoError::BadInt(CacheFile::CoherencyLineSize, IntError::Empty))
    );
    f.coherency_line_size = Some("64".to_string());
    assert_eq!(
        get_cache_info(&f),
        Err(CacheInfoError::BadInt(CacheFile::WaysOfAssociativity, IntError::InvalidDigit))
    );
    f.ty = None;
    assert_eq!(get_cache_info(&f), Err(CacheInfoError::Unreadable(CacheFile::Type)));
    let mut f = files("1", "Data", "48K", "64", "8");
    f.size = None;
    assert_eq!(get_cache_info(&f), Err(CacheInfoError::Unreadable(CacheFile::Size)));
}

#[test]
fn cpu_caches_in_index_order() {
    let indexes = vec![
        files("1", "Data", "48K", "64", "12"),
        files("1", "Instruction", "32K", "64", "8"),
        files("2", "Unified", "2048K", "64", "16"),
    ];
    let caches = get_cpu_cache(&indexes).unwrap();
    assert_eq!(caches.len(), 3);
    assert_eq!(caches[0].ty, CacheType::L1D);
    assert_eq!(caches[1].ty, CacheType::L1I);
    assert_eq!(caches[2].size, 2048 * 1024);
    assert_eq!(get_cpu_cache(&[]).unwrap().len(), 0);
}

#[test]
fn cpu_caches_stop_at_first_bad_index() {
    let indexes = vec![
        files("1", "Data", "48K", "64", "12"),
        files("1", "Unified", "32K", "64", "8"),
        files("9", "Nope", "x", "y", "z"),
    ];
    assert_eq!(
        get_cpu_cache(&indexes),
        Err(CpuCacheError { index: 1, error: CacheInfoError::UnknownType { level: 1 } })
    );
}
