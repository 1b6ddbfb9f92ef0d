//! Preparing assets for publishing: a manifest of the assets with their
//! content hashes and sizes, and plain minifiers for style sheets and
//! scripts.

use crate::graph::{add_clamped, clamped};
use crate::outline::{after_last, start_after_last, strip_end, without_suffix};
use crate::text::{
    lemma_prefix_len_is, prefix_len, slice_of, stands_at, string_of, to_chars, trim_bounds, trimmed,
};
use sha2::{Digest, Sha256};
use vstd::prelude::*;
use vstd::utf8::encode_utf8;

verus! {

/// One asset as it is published.
#[derive(Debug)]
pub struct OptimizedAsset {
    pub original_path: String,
    pub optimized_path: String,
    pub hash: String,
    pub original_size: usize,
    pub optimized_size: usize,
}

/// The assets of a site as they are published, with their sizes in all.
#[derive(Debug)]
pub struct AssetManifest {
    pub files: Vec<OptimizedAsset>,
    pub total_size: usize,
    pub optimized_size: usize,
}

/// What an asset holds, as mathematical values.
pub struct OptimizedAssetView {
    pub original_path: Seq<char>,
    pub optimized_path: Seq<char>,
    pub hash: Seq<char>,
    pub original_size: usize,
    pub optimized_size: usize,
}

impl View for OptimizedAsset {
    type V = OptimizedAssetView;

    open spec fn view(&self) -> OptimizedAssetView {
        OptimizedAssetView {
            original_path: self.original_path@,
            optimized_path: self.optimized_path@,
            hash: self.hash@,
            original_size: self.original_size,
            optimized_size: self.optimized_size,
        }
    }
}

/// The SHA-256 digest of `data`, written in lower-case hexadecimal digits.
pub uninterp spec fn sha256_hex(data: Seq<u8>) -> Seq<char>;

/// Calls `Sha256::digest` and writes the digest in lower-case hexadecimal
/// digits: the result is the SHA-256 digest of `data` in that form.
#[verifier::external_body]
fn sha256_hex_of(data: &[u8]) -> (hex: String)
    ensures
        hex@ == sha256_hex(data@),
{
    format!("{:x}", Sha256::digest(data))
}

/// The first `n` items of `s`, or all of `s` where it has fewer.
pub open spec fn first(s: Seq<char>, n: nat) -> Seq<char> {
    if s.len() >= n {
        s.take(n as int)
    } else {
        s
    }
}

/// The content hash of a text: the first eight digits of its SHA-256
/// digest.
pub open spec fn short_hash(content: Seq<char>) -> Seq<char> {
    first(sha256_hex(encode_utf8(content)), 8)
}

/// The size that an asset at `path` is taken to have: a hundred for each
/// byte of the path.
pub open spec fn size_of(path: Seq<char>) -> nat {
    encode_utf8(path).len() * 100
}

/// The size of an asset after optimization: seven tenths of its size,
/// rounded down.
pub open spec fn reduced(size: usize) -> usize {
    (size * 7 / 10) as usize
}

/// The asset that is published for the asset at `path`: under a path that
/// carries its content hash before the extension, and at a reduced size.
pub open spec fn asset_of(path: Seq<char>) -> OptimizedAssetView {
    let extension = after_last(path, '.');
    let hash = short_hash(path);
    OptimizedAssetView {
        original_path: path,
        optimized_path: without_suffix(path, extension) + seq!['.'] + hash + seq!['.'] + extension,
        hash,
        original_size: clamped(size_of(path)),
        optimized_size: reduced(clamped(size_of(path))),
    }
}

/// The content hash of `content`.
pub fn generate_hash(content: &str) -> (hash: String)
    ensures
        hash@ == short_hash(content@),
{
    let hex = sha256_hex_of(content.as_bytes());
    let digits = to_chars(hex.as_str());
    if digits.len() >= 8 {
        let h = string_of(&digits, 0, 8);
        proof {
            assert(digits@.subrange(0, 8) =~= digits@.take(8));
        }
        h
    } else {
        hex
    }
}

/// Adds the characters of `part` to `s`.
fn push_all(s: &mut String, part: &Vec<char>, from: usize, to: usize)
    requires
        from <= to <= part.len(),
    ensures
        final(s)@ == old(s)@ + part@.subrange(from as int, to as int),
{
    let mut i: usize = from;
    proof {
        assert(s@ + part@.subrange(from as int, from as int) =~= s@);
    }
    while i < to
        invariant
            from <= i <= to <= part.len(),
            s@ == old(s)@ + part@.subrange(from as int, i as int),
        decreases to - i,
    {
        proof {
            assert((old(s)@ + part@.subrange(from as int, i as int)).push(part@[i as int]) =~= old(s)@
                + part@.subrange(from as int, i + 1));
        }
        s.push(part[i]);
        i += 1;
    }
}

/// The asset that is published for the asset at `path`.
pub fn optimize_single_asset(path: &str) -> (r: Result<OptimizedAsset, String>)
    ensures
        r matches Ok(asset) && asset@ == asset_of(path@),
{
    let hash = generate_hash(path);
    let chars = to_chars(path);
    let n: usize = chars.len();
    let k = start_after_last(&chars, '.');
    let extension = slice_of(&chars, k, n);
    let stem_end: usize = if extension.len() > 0 {
        strip_end(&chars, 0, n, &extension)
    } else {
        n
    };
    proof {
        assert(chars@.subrange(0, n as int) =~= chars@);
    }
    let bytes: usize = path.as_bytes().len();
    let original_size: usize = if bytes > usize::MAX / 100 {
        usize::MAX
    } else {
        bytes * 100
    };
    let optimized_size: usize = ((original_size as u128) * 7 / 10) as usize;
    let mut optimized_path = String::new();
    push_all(&mut optimized_path, &chars, 0, stem_end);
    optimized_path.push('.');
    optimized_path.append(hash.as_str());
    optimized_path.push('.');
    push_all(&mut optimized_path, &extension, 0, extension.len());
    proof {
        assert(extension@.subrange(0, extension.len() as int) =~= extension@);
        assert(optimized_path@ =~= asset_of(path@).optimized_path);
    }
    Ok(
        OptimizedAsset {
            original_path: path.to_owned(),
            optimized_path,
            hash,
            original_size,
            optimized_size,
        },
    )
}

/// The views of a sequence of assets.
pub open spec fn asset_views(s: Seq<OptimizedAsset>) -> Seq<OptimizedAssetView> {
    Seq::new(s.len(), |i: int| s[i]@)
}

/// The assets that are published for the assets at `paths`.
pub open spec fn assets_of(paths: Seq<String>) -> Seq<OptimizedAssetView> {
    Seq::new(paths.len(), |i: int| asset_of(paths[i]@))
}

/// The sizes of `assets` together, before optimization.
pub open spec fn sum_original(assets: Seq<OptimizedAssetView>) -> nat
    decreases assets.len(),
{
    if assets.len() == 0 {
        0
    } else {
        sum_original(assets.drop_last()) + assets.last().original_size as nat
    }
}

/// The sizes of `assets` together, after optimization.
pub open spec fn sum_optimized(assets: Seq<OptimizedAssetView>) -> nat
    decreases assets.len(),
{
    if assets.len() == 0 {
        0
    } else {
        sum_optimized(assets.drop_last()) + assets.last().optimized_size as nat
    }
}

/// The manifest of the assets at `asset_paths`: each asset as it is
/// published, in the order of the paths, and the sizes before and after
/// optimization, each as the largest machine number where it does not fit.
pub fn optimize_assets(asset_paths: &[String]) -> (r: Result<AssetManifest, String>)
    ensures
        r matches Ok(manifest) && asset_views(manifest.files@) == assets_of(asset_paths@)
            && manifest.total_size == clamped(sum_original(assets_of(asset_paths@)))
            && manifest.optimized_size == clamped(sum_optimized(assets_of(asset_paths@))),
{
    let ghost all = assets_of(asset_paths@);
    let mut files: Vec<OptimizedAsset> = Vec::new();
    let mut total_size: usize = 0;
    let mut optimized_size: usize = 0;
    let mut i: usize = 0;
    proof {
        assert(all.take(0) =~= Seq::<OptimizedAssetView>::empty());
        assert(asset_views(files@) =~= all.take(0));
    }
    while i < asset_paths.len()
        invariant
            i <= asset_paths.len(),
            all == assets_of(asset_paths@),
            asset_views(files@) == all.take(i as int),
            total_size == clamped(sum_original(all.take(i as int))),
            optimized_size == clamped(sum_optimized(all.take(i as int))),
        decreases asset_paths.len() - i,
    {
        let asset = match optimize_single_asset(asset_paths[i].as_str()) {
            Ok(asset) => asset,
            Err(e) => {
                return Err(e);
            },
        };
        proof {
            assert(all.take(i + 1).drop_last() =~= all.take(i as int));
            assert(all.take(i + 1).last() == asset@);
            assert(asset_views(files@.push(asset)) =~= all.take(i + 1));
        }
        total_size = add_clamped(total_size, asset.original_size);
        optimized_size = add_clamped(optimized_size, asset.optimized_size);
        files.push(asset);
        i += 1;
    }
    proof {
        assert(all.take(asset_paths.len() as int) =~= all);
    }
    Ok(AssetManifest { files, total_size, optimized_size })
}

/// The lines of `s`, each without the white space around it, one behind the
/// other; a line ends at a line feed. Of lines that begin with `skip`, where
/// `skip` is not empty, nothing is kept.
pub open spec fn packed(s: Seq<char>, skip: Seq<char>) -> Seq<char>
    decreases s.len(),
{
    let n = prefix_len(s, |c: char| c != '\n');
    let line = trimmed(s.take(n as int));
    let kept = if skip.len() > 0 && line.len() >= skip.len() && line.take(skip.len() as int) == skip {
        Seq::empty()
    } else {
        line
    };
    if n < s.len() {
        kept + packed(s.skip(n as int + 1), skip)
    } else {
        kept
    }
}

/// `s` with each two spaces in a row, taken from the left, turned into one.
pub open spec fn squeezed(s: Seq<char>) -> Seq<char>
    decreases s.len(),
{
    if s.len() == 0 {
        Seq::empty()
    } else if s.len() >= 2 && s[0] == ' ' && s[1] == ' ' {
        seq![' '] + squeezed(s.skip(2))
    } else {
        seq![s[0]] + squeezed(s.skip(1))
    }
}

/// The lines of `chars`, trimmed and joined.
fn pack(chars: &Vec<char>, skip: &Vec<char>) -> (r: Vec<char>)
    ensures
        r@ == packed(chars@, skip@),
{
    let n: usize = chars.len();
    let mut r: Vec<char> = Vec::new();
    let mut start: usize = 0;
    let mut going: bool = true;
    proof {
        assert(chars@.skip(0) =~= chars@);
        assert(r@ + packed(chars@, skip@) =~= packed(chars@, skip@));
    }
    while going
        invariant
            start <= n == chars.len(),
            going ==> packed(chars@, skip@) == r@ + packed(chars@.skip(start as int), skip@),
            !going ==> packed(chars@, skip@) == r@,
        decreases n - start + if going { 1int } else { 0int },
    {
        let ghost rest = chars@.skip(start as int);
        let ghost before = r@;
        let mut end: usize = start;
        while end < n && chars[end] != '\n'
            invariant
                start <= end <= n == chars.len(),
                forall|j: int| start <= j < end ==> chars@[j] != '\n',
            decreases n - end,
        {
            end += 1;
        }
        proof {
            assert forall|j: int| 0 <= j < end - start implies (|c: char| c != '\n')(#[trigger] rest[j]) by {
                assert(rest[j] == chars@[j + start]);
            }
            if end < n {
                assert(rest[end - start] == chars@[end as int]);
            }
            lemma_prefix_len_is(rest, |c: char| c != '\n', end - start);
            assert(rest.take(end - start) =~= chars@.subrange(start as int, end as int));
        }
        let bounds = trim_bounds(chars, start, end);
        let a: usize = bounds.0;
        let b: usize = bounds.1;
        let ghost line = chars@.subrange(a as int, b as int);
        let m: usize = skip.len();
        let mut dropped: bool = false;
        if m > 0 && b - a >= m {
            proof {
                assert(chars@.subrange(a as int, a + m) =~= line.take(m as int));
            }
            dropped = stands_at(chars, a, skip);
        }
        if !dropped {
            let mut t: usize = a;
            proof {
                assert(before + line.take(0) =~= before);
            }
            while t < b
                invariant
                    a <= t <= b <= chars.len(),
                    line == chars@.subrange(a as int, b as int),
                    r@ == before + line.take(t - a),
                decreases b - t,
            {
                proof {
                    assert((before + line.take(t - a)).push(chars@[t as int]) =~= before + line.take(
                        t + 1 - a,
                    ));
                }
                r.push(chars[t]);
                t += 1;
            }
            proof {
                assert(line.take(b - a) =~= line);
            }
        } else {
            proof {
                assert(before + Seq::<char>::empty() =~= before);
            }
        }
        if end < n {
            proof {
                assert(rest.skip(end - start + 1) =~= chars@.skip(end + 1));
                let kept = r@.skip(before.len() as int);
                assert(r@ =~= before + kept);
                assert(before + (kept + packed(rest.skip(end - start + 1), skip@)) =~= (before + kept)
                    + packed(rest.skip(end - start + 1), skip@));
            }
            start = end + 1;
        } else {
            going = false;
            start = n;
        }
    }
    r
}

/// `chars` with each two spaces in a row turned into one.
fn squeeze(chars: &Vec<char>) -> (r: Vec<char>)
    ensures
        r@ == squeezed(chars@),
{
    let n: usize = chars.len();
    let mut r: Vec<char> = Vec::new();
    let mut i: usize = 0;
    proof {
        assert(chars@.skip(0) =~= chars@);
        assert(r@ + squeezed(chars@) =~= squeezed(chars@));
    }
    while i < n
        invariant
            i <= n == chars.len(),
            squeezed(chars@) == r@ + squeezed(chars@.skip(i as int)),
        decreases n - i,
    {
        let ghost rest = chars@.skip(i as int);
        let ghost before = r@;
        proof {
            assert(rest[0] == chars@[i as int]);
        }
        if n - i >= 2 && chars[i] == ' ' && chars[i + 1] == ' ' {
            proof {
                assert(rest[1] == chars@[i + 1]);
                assert(rest.skip(2) =~= chars@.skip(i + 2));
                assert(before + (seq![' '] + squeezed(rest.skip(2))) =~= before.push(' ') + squeezed(
                    rest.skip(2),
                ));
            }
            r.push(' ');
            i += 2;
        } else {
            proof {
                if rest.len() >= 2 {
                    assert(rest[1] == chars@[i + 1]);
                }
                assert(rest.skip(1) =~= chars@.skip(i + 1));
                assert(before + (seq![rest[0]] + squeezed(rest.skip(1))) =~= before.push(rest[0])
                    + squeezed(rest.skip(1)));
            }
            r.push(chars[i]);
            i += 1;
        }
    }
    proof {
        assert(chars@.skip(n as int) =~= Seq::<char>::empty());
        assert(r@ + Seq::<char>::empty() =~= r@);
    }
    r
}

/// A style sheet in one line: its lines, each without the white space
/// around it, one behind the other, and then each two spaces in a row
/// turned into one.
pub fn minify_css(css: &str) -> (r: String)
    ensures
        r@ == squeezed(packed(css@, Seq::empty())),
{
    let none: Vec<char> = Vec::new();
    let joined = pack(&to_chars(css), &none);
    let tight = squeeze(&joined);
    proof {
        assert(none@ =~= Seq::<char>::empty());
        assert(tight@.subrange(0, tight.len() as int) =~= tight@);
    }
    string_of(&tight, 0, tight.len())
}

/// A script in one line: its lines, each without the white space around it,
/// one behind the other, without the lines that are comments.
pub fn minify_js(js: &str) -> (r: String)
    ensures
        r@ == packed(js@, seq!['/', '/']),
{
    let mut comment: Vec<char> = Vec::new();
    comment.push('/');
    comment.push('/');
    let joined = pack(&to_chars(js), &comment);
    proof {
        assert(comment@ =~= seq!['/', '/']);
        assert(joined@.subrange(0, joined.len() as int) =~= joined@);
    }
    string_of(&joined, 0, joined.len())
}

} // verus!
