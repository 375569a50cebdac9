//! Releases and their assets: which release and assets to show or fetch.

use vstd::prelude::*;
use crate::text::str_equal;
use crate::walker::{DownloadTask, DownloadTaskView};

verus! {

/// A file attached to a release.
pub struct Asset {
    pub name: String,
    pub size: u64,
    pub download_url: String,
    pub created_at: String,
}

/// A tagged release and its assets.
pub struct Release {
    pub tag_name: String,
    pub assets: Vec<Asset>,
}

/// Why no asset was selected.
#[derive(Clone, Copy, Debug, PartialEq, Eq, Structural)]
pub enum SelectionError {
    /// The repository has no release.
    NoReleases,
    /// Neither all assets nor a file name was asked for.
    NothingSelected,
}

/// Number of transfers of release assets that run at once.
pub const ASSET_PARALLELISM: usize = 3;

/// The newest release: the first of the listing, which the remote orders
/// newest first.
pub fn newest_release(releases: Vec<Release>) -> (r: Result<Release, SelectionError>)
    ensures
        releases@.len() == 0 ==> r == Err::<Release, SelectionError>(SelectionError::NoReleases),
        releases@.len() > 0 ==> r == Ok::<Release, SelectionError>(releases@[0]),
{
    let mut releases = releases;
    if releases.len() == 0 {
        Err(SelectionError::NoReleases)
    } else {
        Ok(releases.remove(0))
    }
}

/// The assets named `name`, in order.
pub open spec fn assets_named(assets: Seq<Asset>, name: Seq<char>) -> Seq<Asset> {
    assets.filter(|a: Asset| a.name@ == name)
}

/// All assets when `all` is set; else those named `file`; else an error.
pub fn select_assets(assets: Vec<Asset>, all: bool, file: Option<&str>) -> (r: Result<
    Vec<Asset>,
    SelectionError,
>)
    ensures
        all ==> (r matches Ok(v) && v@ == assets@),
        !all && file is Some ==> (r matches Ok(v) && v@ == assets_named(assets@, file->0@)),
        !all && file is None ==> r == Err::<Vec<Asset>, SelectionError>(
            SelectionError::NothingSelected,
        ),
{
    if all {
        return Ok(assets);
    }
    match file {
        None => Err(SelectionError::NothingSelected),
        Some(f) => {
            let mut assets = assets;
            let ghost all_assets = assets@;
            let mut kept: Vec<Asset> = Vec::new();
            let mut rev: Vec<Asset> = Vec::new();
            while assets.len() > 0
                invariant
                    assets@ + rev@.reverse() == all_assets,
                decreases assets.len(),
            {
                let ghost before = assets@;
                let a = assets.pop().unwrap();
                assert(before =~= assets@.push(a));
                let ghost rb = rev@;
                rev.push(a);
                assert(rev@.reverse() =~= seq![a] + rb.reverse());
                assert(assets@ + rev@.reverse() =~= all_assets);
            }
            assert(assets@ =~= Seq::<Asset>::empty());
            assert(rev@.reverse() =~= all_assets);
            let ghost done: Seq<Asset> = Seq::empty();
            while rev.len() > 0
                invariant
                    done + rev@.reverse() == all_assets,
                    kept@ == assets_named(done, f@),
                decreases rev.len(),
            {
                let ghost before = rev@;
                let a = rev.pop().unwrap();
                assert(before =~= rev@.push(a));
                assert(before.reverse() =~= seq![a] + rev@.reverse());
                proof {
                    assert(done.push(a).drop_last() =~= done);
                    reveal(Seq::filter);
                }
                let keep = str_equal(a.name.as_str(), f);
                proof {
                    done = done.push(a);
                }
                if keep {
                    kept.push(a);
                }
                assert(done + rev@.reverse() =~= all_assets);
            }
            assert(rev@ =~= Seq::<Asset>::empty());
            assert(done =~= all_assets);
            Ok(kept)
        },
    }
}

/// How many releases a listing view shows: `n` when the newest `n` are asked
/// for, one when the newest alone is, else all; never more than there are.
pub fn releases_to_show(available: usize, latest: Option<Option<usize>>) -> (r: usize)
    ensures
        r == match latest {
            Some(Some(n)) => if n < available {
                n
            } else {
                available
            },
            Some(None) => if 1 < available {
                1
            } else {
                available
            },
            None => available,
        },
{
    let wanted = match latest {
        Some(Some(n)) => n,
        Some(None) => 1,
        None => available,
    };
    if wanted < available {
        wanted
    } else {
        available
    }
}

/// The download task of each asset, in order: from its download address to
/// a file of its name, of its size.
pub fn asset_tasks(assets: &Vec<Asset>) -> (r: Vec<DownloadTask>)
    ensures
        r@.len() == assets@.len(),
        forall|k: int|
            0 <= k < r@.len() ==> #[trigger] r@[k]@ == (DownloadTaskView {
                source_url: assets@[k].download_url@,
                destination_path: assets@[k].name@,
                expected_size: Some(assets@[k].size),
            }),
{
    let mut r: Vec<DownloadTask> = Vec::new();
    let mut i: usize = 0;
    while i < assets.len()
        invariant
            i <= assets@.len(),
            r@.len() == i,
            forall|k: int|
                0 <= k < i ==> #[trigger] r@[k]@ == (DownloadTaskView {
                    source_url: assets@[k].download_url@,
                    destination_path: assets@[k].name@,
                    expected_size: Some(assets@[k].size),
                }),
        decreases assets@.len() - i,
    {
        let a = &assets[i];
        r.push(
            DownloadTask {
                source_url: a.download_url.clone(),
                destination_path: a.name.clone(),
                expected_size: Some(a.size),
            },
        );
        i = i + 1;
    }
    r
}

/// The text that humansize gives a byte count in binary units.
pub uninterp spec fn binary_size_text(bytes: u64) -> Seq<char>;

/// Relies on `humansize::format_size` with the `BINARY` options: the byte
/// count in binary units (`1.50 KiB`), which depends on the count alone.
#[verifier::external_body]
fn format_binary_size(bytes: u64) -> (r: String)
    ensures
        r@ == binary_size_text(bytes),
{
    humansize::format_size(bytes, humansize::BINARY)
}

/// One asset as a detailed release view lists it.
pub struct AssetLine {
    /// Position in the release, from 1.
    pub number: usize,
    pub name: String,
    pub size_text: String,
    pub created_at: String,
    pub url: String,
}

/// The lines of a release view: each asset numbered from 1, with its size in
/// binary units, its date and its address.
pub fn asset_lines(release: &Release) -> (r: Vec<AssetLine>)
    ensures
        r@.len() == release.assets@.len(),
        forall|k: int|
            0 <= k < r@.len() ==> {
                &&& #[trigger] r@[k].number == k + 1
                &&& r@[k].name@ == release.assets@[k].name@
                &&& r@[k].size_text@ == binary_size_text(release.assets@[k].size)
                &&& r@[k].created_at@ == release.assets@[k].created_at@
                &&& r@[k].url@ == release.assets@[k].download_url@
            },
{
    let mut r: Vec<AssetLine> = Vec::new();
    let mut i: usize = 0;
    while i < release.assets.len()
        invariant
            i <= release.assets@.len(),
            r@.len() == i,
            forall|k: int|
                0 <= k < i ==> {
                    &&& #[trigger] r@[k].number == k + 1
                    &&& r@[k].name@ == release.assets@[k].name@
                    &&& r@[k].size_text@ == binary_size_text(release.assets@[k].size)
                    &&& r@[k].created_at@ == release.assets@[k].created_at@
                    &&& r@[k].url@ == release.assets@[k].download_url@
                },
        decreases release.assets@.len() - i,
    {
        let a = &release.assets[i];
        r.push(
            AssetLine {
                number: i + 1,
                name: a.name.clone(),
                size_text: format_binary_size(a.size),
                created_at: a.created_at.clone(),
                url: a.download_url.clone(),
            },
        );
        i = i + 1;
    }
    r
}

} // verus!
