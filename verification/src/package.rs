//! Packages as the downloaders hand them out.

use crate::checksum::{combined, sha256, Checksum};
use crate::debversion::text_bytes;
use crate::Event;
use crate::EventModel;
use vstd::prelude::*;

verus! {

/// A downloaded package.
#[derive(Debug, Clone, PartialEq, Eq)]
pub struct Package {
    pub name: String,
}

impl DeepView for Package {
    type V = Seq<char>;

    open spec fn deep_view(&self) -> Seq<char> {
        self.name@
    }
}

/// A checksum into which the digests of `names` were combined, one after
/// the other.
pub open spec fn absorbed(start: Option<Seq<u8>>, names: Seq<Seq<char>>) -> Option<Seq<u8>>
    decreases names.len(),
{
    if names.len() == 0 {
        start
    } else {
        combined(absorbed(start, names.drop_last()), Some(sha256(text_bytes(names.last()))))
    }
}

/// The name of the package that is downloaded at place `idx`: the lines are
/// gone through again and again.
pub open spec fn package_name_at(lines: Seq<Seq<char>>, idx: int) -> Seq<char> {
    lines[idx % lines.len() as int]
}

/// The names of the `n` packages downloaded from place `start` on.
pub open spec fn package_names(lines: Seq<Seq<char>>, start: int, n: int) -> Seq<Seq<char>> {
    Seq::new(n as nat, |i: int| package_name_at(lines, start + i))
}

/// Downloads a run of packages.
pub struct PackageDownloader {
    pkg_start_idx: usize,
    num_pkgs: usize,
}

impl PackageDownloader {
    /// The place of the first package.
    pub closed spec fn start(&self) -> usize {
        self.pkg_start_idx
    }

    /// The number of packages.
    pub closed spec fn count(&self) -> usize {
        self.num_pkgs
    }

    /// A downloader of `num_pkgs` packages from place `pkg_start_idx` on.
    pub fn new(pkg_start_idx: usize, num_pkgs: usize) -> (r: PackageDownloader)
        ensures
            r.start() == pkg_start_idx,
            r.count() == num_pkgs,
    {
        PackageDownloader { pkg_start_idx, num_pkgs }
    }

    /// The events of this downloader, one for each package in order, and
    /// the checksum of the packages' names. `lines` holds the package names
    /// that there are.
    pub fn run(&self, lines: &Vec<String>) -> (r: (Vec<Event>, Checksum))
        requires
            self.count() > 0 ==> lines.len() > 0,
            self.start() + self.count() <= usize::MAX,
        ensures
            r.0.len() == self.count(),
            forall|i: int|
                0 <= i < self.count() ==> (#[trigger] r.0[i]).deep_view()
                    == (EventModel::DownloadComplete {
                    name: package_name_at(lines.deep_view(), self.start() + i),
                }),
            r.1@ == absorbed(
                None,
                package_names(lines.deep_view(), self.start() as int, self.count() as int),
            ),
    {
        let total_lines = lines.len();
        let mut local_checksum = Checksum::default();
        let mut events: Vec<Event> = Vec::new();
        let ghost names = package_names(
            lines.deep_view(),
            self.pkg_start_idx as int,
            self.num_pkgs as int,
        );
        let mut i: usize = 0;
        assert(names.take(0) =~= Seq::<Seq<char>>::empty());
        while i < self.num_pkgs
            invariant
                i <= self.num_pkgs,
                total_lines == lines.len(),
                self.num_pkgs > 0 ==> total_lines > 0,
                self.pkg_start_idx + self.num_pkgs <= usize::MAX,
                names == package_names(
                    lines.deep_view(),
                    self.pkg_start_idx as int,
                    self.num_pkgs as int,
                ),
                events.len() == i,
                forall|k: int|
                    0 <= k < i ==> (#[trigger] events[k]).deep_view()
                        == (EventModel::DownloadComplete {
                        name: package_name_at(lines.deep_view(), self.pkg_start_idx + k),
                    }),
                local_checksum@ == absorbed(None, names.take(i as int)),
            decreases self.num_pkgs - i,
        {
            let index = (self.pkg_start_idx + i) % total_lines;
            let name = lines[index].clone();
            assert(name@ == names[i as int]);
            assert(names.take(i + 1).drop_last() =~= names.take(i as int));
            local_checksum.update(Checksum::with_sha256(name.as_str()));
            events.push(Event::DownloadComplete(Package { name }));
            i += 1;
        }
        assert(names.take(self.num_pkgs as int) =~= names);
        (events, local_checksum)
    }
}

} // verus!
