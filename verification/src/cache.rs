//! Where downloaded S3 objects are kept locally, and their S3 keys.
//!
//! Raw LZ4 files are stored as they are, at
//! `{data_dir}/s3/hl-mainnet-node-data/{prefix}/{date}/{hour}.lz4`,
//! which mirrors the S3 key so each source format gets its own directory.

use vstd::prelude::*;
use crate::{DataSource, S3_BUCKET, prefix_of};
use crate::text::{decimal_chars, push_decimal, to_chars, lemma_decimal_chars, is_digit, digits_value};

verus! {

/// `base` joined with `comp` as `PathBuf::push` does on Unix: an absolute
/// `comp` replaces `base`; otherwise a `/` separates them unless `base`
/// is empty or already ends with one.
pub open spec fn join_path(base: Seq<char>, comp: Seq<char>) -> Seq<char> {
    if comp.len() > 0 && comp[0] == '/' {
        comp
    } else if base.len() == 0 || base.last() == '/' {
        base + comp
    } else {
        base + seq!['/'] + comp
    }
}

/// The file name of an hour: `{hour}.lz4`.
pub open spec fn hour_file(hour: u8) -> Seq<char> {
    decimal_chars(hour as nat) + ".lz4"@
}

/// The local cache path of an hourly file.
pub open spec fn cache_path_spec(data_dir: Seq<char>, date: Seq<char>, hour: u8, source: DataSource) -> Seq<char> {
    join_path(
        join_path(join_path(join_path(join_path(data_dir, "s3"@), "hl-mainnet-node-data"@), prefix_of(source)), date),
        hour_file(hour),
    )
}

/// The S3 key of an hourly file: `{prefix}/{date}/{hour}.lz4`.
pub open spec fn s3_key_spec(date: Seq<char>, hour: u8, source: DataSource) -> Seq<char> {
    prefix_of(source) + seq!['/'] + date + seq!['/'] + hour_file(hour)
}

/// Joins `comp` onto the path `base` (see `join_path`).
pub fn join(base: String, comp: &str) -> (r: String)
    ensures
        r@ == join_path(base@, comp@),
{
    let c = to_chars(comp);
    if c.len() > 0 && c[0] == '/' {
        return String::from_str(comp);
    }
    let b = to_chars(base.as_str());
    let mut r = base;
    if !(b.len() == 0 || b[b.len() - 1] == '/') {
        r.append("/");
        proof {
            reveal_strlit("/");
        }
    }
    r.append(comp);
    r
}

/// The file name `{hour}.lz4`.
fn hour_file_name(hour: u8) -> (r: String)
    ensures
        r@ == hour_file(hour),
{
    let mut r = String::new();
    push_decimal(&mut r, hour as u64);
    r.append(".lz4");
    proof {
        assert(r@ =~= hour_file(hour));
    }
    r
}

/// Returns the local cache path for a given S3 hourly file.
pub fn cache_path(data_dir: &str, date: &str, hour: u8, source: DataSource) -> (r: String)
    ensures
        r@ == cache_path_spec(data_dir@, date@, hour, source),
{
    let p = join(String::from_str(data_dir), "s3");
    let p = join(p, S3_BUCKET);
    proof {
        reveal_strlit("hl-mainnet-node-data");
    }
    let p = join(p, source.s3_prefix());
    let p = join(p, date);
    let name = hour_file_name(hour);
    join(p, name.as_str())
}

/// The cached path of an hourly file when the file is there (`present`
/// is whether a file exists at `cache_path`), `None` otherwise.
pub fn get_cached(data_dir: &str, date: &str, hour: u8, source: DataSource, present: bool) -> (r: Option<String>)
    ensures
        present ==> (r matches Some(p) && p@ == cache_path_spec(data_dir@, date@, hour, source)),
        !present ==> r is None,
{
    if present {
        Some(cache_path(data_dir, date, hour, source))
    } else {
        None
    }
}

/// The S3 key of an hourly file: `{prefix}/{date}/{hour}.lz4`.
pub fn s3_key(date: &str, hour: u8, source: DataSource) -> (r: String)
    ensures
        r@ == s3_key_spec(date@, hour, source),
{
    let mut r = String::from_str(source.s3_prefix());
    r.append("/");
    r.append(date);
    r.append("/");
    let name = hour_file_name(hour);
    r.append(name.as_str());
    proof {
        reveal_strlit("/");
        assert(r@ =~= s3_key_spec(date@, hour, source));
    }
    r
}

/// The cache mirrors the bucket: an hourly file's cache path is the data
/// directory joined with `s3/{bucket}/{S3 key}`, for dates that are
/// non-empty and do not start or end with `/`.
pub proof fn law_cache_path_mirrors_s3_key(data_dir: Seq<char>, date: Seq<char>, hour: u8, source: DataSource)
    requires
        date.len() > 0,
        date[0] != '/',
        date.last() != '/',
    ensures
        cache_path_spec(data_dir, date, hour, source)
            == join_path(data_dir, "s3/hl-mainnet-node-data/"@ + s3_key_spec(date, hour, source)),
{
    reveal_strlit("s3");
    reveal_strlit("hl-mainnet-node-data");
    reveal_strlit("s3/hl-mainnet-node-data/");
    reveal_strlit("node_fills_by_block/hourly");
    reveal_strlit("node_fills/hourly");
    reveal_strlit("node_trades/hourly");
    reveal_strlit(".lz4");
    lemma_decimal_chars(hour as nat);
    let hf = hour_file(hour);
    assert(hf[0] == decimal_chars(hour as nat)[0]);
    let p = prefix_of(source);
    let a = join_path(data_dir, "s3"@);
    let b = join_path(a, "hl-mainnet-node-data"@);
    let c = join_path(b, p);
    let d = join_path(c, date);
    assert(a.len() > 0 && a.last() == '3');
    assert(b =~= a + seq!['/'] + "hl-mainnet-node-data"@);
    assert(c =~= b + seq!['/'] + p);
    assert(d =~= c + seq!['/'] + date);
    assert(d.last() == date.last());
    assert(join_path(d, hf) =~= d + seq!['/'] + hf);
    let key = "s3/hl-mainnet-node-data/"@ + s3_key_spec(date, hour, source);
    assert(key =~= "s3"@ + seq!['/'] + "hl-mainnet-node-data"@ + seq!['/'] + p + seq!['/'] + date + seq!['/'] + hf);
    if data_dir.len() == 0 || data_dir.last() == '/' {
        assert(join_path(data_dir, key) =~= data_dir + key);
        assert(a =~= data_dir + "s3"@);
    } else {
        assert(join_path(data_dir, key) =~= data_dir + seq!['/'] + key);
        assert(a =~= data_dir + seq!['/'] + "s3"@);
    }
}

/// A `YYYYMMDD` date: eight ASCII digits.
pub open spec fn is_ymd(date: Seq<char>) -> bool {
    date.len() == 8 && forall|i: int| 0 <= i < 8 ==> is_digit(#[trigger] date[i])
}

/// The cache path of an hourly file is `{data_dir}/s3/hl-mainnet-node-data/`
/// followed by its S3 key.
proof fn lemma_cache_path_under_bucket(data_dir: Seq<char>, date: Seq<char>, hour: u8, source: DataSource)
    requires
        is_ymd(date),
    ensures
        cache_path_spec(data_dir, date, hour, source)
            == join_path(join_path(data_dir, "s3"@), "hl-mainnet-node-data"@) + seq!['/'] + s3_key_spec(date, hour, source),
{
    reveal_strlit("s3");
    reveal_strlit("hl-mainnet-node-data");
    reveal_strlit("node_fills_by_block/hourly");
    reveal_strlit("node_fills/hourly");
    reveal_strlit("node_trades/hourly");
    reveal_strlit(".lz4");
    lemma_decimal_chars(hour as nat);
    let hf = hour_file(hour);
    assert(hf[0] == decimal_chars(hour as nat)[0]);
    assert(is_digit(date[0]) && is_digit(date[7]));
    let p = prefix_of(source);
    let b = join_path(join_path(data_dir, "s3"@), "hl-mainnet-node-data"@);
    let c = join_path(b, p);
    let d = join_path(c, date);
    assert(b.len() > 0 && b.last() == 'a');
    assert(c =~= b + seq!['/'] + p);
    assert(d =~= c + seq!['/'] + date);
    assert(d.last() == date.last());
    assert(join_path(d, hf) =~= b + seq!['/'] + s3_key_spec(date, hour, source));
}

/// Equal S3 keys of `YYYYMMDD` dates name the same hourly file.
proof fn lemma_s3_key_injective(date1: Seq<char>, hour1: u8, s1: DataSource, date2: Seq<char>, hour2: u8, s2: DataSource)
    requires
        is_ymd(date1),
        is_ymd(date2),
        s3_key_spec(date1, hour1, s1) == s3_key_spec(date2, hour2, s2),
    ensures
        date1 == date2 && hour1 == hour2 && s1 == s2,
{
    reveal_strlit("node_fills_by_block/hourly");
    reveal_strlit("node_fills/hourly");
    reveal_strlit("node_trades/hourly");
    reveal_strlit(".lz4");
    let k1 = s3_key_spec(date1, hour1, s1);
    let k2 = s3_key_spec(date2, hour2, s2);
    let p1 = prefix_of(s1);
    let p2 = prefix_of(s2);
    assert(k1[5] == p1[5] && k1[10] == p1[10]);
    assert(k2[5] == p2[5] && k2[10] == p2[10]);
    assert(s1 == s2);
    let l = p1.len() as int;
    assert(k1.subrange(l + 1, l + 9) =~= date1);
    assert(k2.subrange(l + 1, l + 9) =~= date2);
    let h1 = decimal_chars(hour1 as nat);
    let h2 = decimal_chars(hour2 as nat);
    assert(k1.subrange(l + 10, k1.len() - 4) =~= h1);
    assert(k2.subrange(l + 10, k2.len() - 4) =~= h2);
    lemma_decimal_chars(hour1 as nat);
    lemma_decimal_chars(hour2 as nat);
    assert(digits_value(h1) == digits_value(h2));
}

/// Hourly files never share a cache entry: for `YYYYMMDD` dates, two
/// (date, hour, source) triples have the same cache path exactly when
/// they are the same triple; and every cache path lies under
/// `{data_dir}/s3/hl-mainnet-node-data/`, followed by the file's S3 key.
pub proof fn law_cache_paths_distinct(data_dir: Seq<char>, date1: Seq<char>, hour1: u8, s1: DataSource,
    date2: Seq<char>, hour2: u8, s2: DataSource)
    requires
        is_ymd(date1),
        is_ymd(date2),
    ensures
        cache_path_spec(data_dir, date1, hour1, s1)
            == join_path(join_path(data_dir, "s3"@), "hl-mainnet-node-data"@) + seq!['/'] + s3_key_spec(date1, hour1, s1),
        (cache_path_spec(data_dir, date1, hour1, s1) == cache_path_spec(data_dir, date2, hour2, s2))
            <==> (date1 == date2 && hour1 == hour2 && s1 == s2),
{
    lemma_cache_path_under_bucket(data_dir, date1, hour1, s1);
    lemma_cache_path_under_bucket(data_dir, date2, hour2, s2);
    let b = join_path(join_path(data_dir, "s3"@), "hl-mainnet-node-data"@);
    let k1 = s3_key_spec(date1, hour1, s1);
    let k2 = s3_key_spec(date2, hour2, s2);
    if cache_path_spec(data_dir, date1, hour1, s1) == cache_path_spec(data_dir, date2, hour2, s2) {
        let x = b + seq!['/'] + k1;
        let y = b + seq!['/'] + k2;
        assert(x.len() == y.len());
        assert(x.subrange(b.len() as int + 1, x.len() as int) =~= k1);
        assert(y.subrange(b.len() as int + 1, y.len() as int) =~= k2);
        lemma_s3_key_injective(date1, hour1, s1, date2, hour2, s2);
    }
}

} // verus!
