//! A Debian-style package dependency resolver with a checksum verification
//! queue; a builder of token dictionaries from log lines; and the checksums,
//! shares and event handling of a hackathon of ideas, packages and students.

pub mod async_fns;
pub mod checksum;
pub mod debversion;
pub mod deps_available;
pub mod dictionary;
pub mod graph;
pub mod hackathon;
pub mod idea;
pub mod package;
pub mod packages;
pub mod parser;
pub mod solvers;
pub mod student;

use idea::Idea;
use package::Package;
use vstd::prelude::*;

verus! {

/// What passes between idea generators, package downloaders and students.
#[derive(Debug, Clone, PartialEq, Eq)]
pub enum Event {
    /// A new idea is to be built.
    NewIdea(Idea),
    /// No more ideas will come; one such event is sent for each student.
    OutOfIdeas,
    /// A package has been downloaded.
    DownloadComplete(Package),
}

/// An event as plain values.
pub enum EventModel {
    NewIdea { name: Seq<char>, num_pkg_required: usize },
    OutOfIdeas,
    DownloadComplete { name: Seq<char> },
}

impl DeepView for Event {
    type V = EventModel;

    open spec fn deep_view(&self) -> EventModel {
        match self {
            Event::NewIdea(idea) => EventModel::NewIdea {
                name: idea.name@,
                num_pkg_required: idea.num_pkg_required,
            },
            Event::OutOfIdeas => EventModel::OutOfIdeas,
            Event::DownloadComplete(package) => EventModel::DownloadComplete { name: package.name@ },
        }
    }
}

} // verus!
