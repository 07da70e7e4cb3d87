//! A student: takes an idea, collects packages, builds the idea once the
//! packages suffice, and goes home when no idea is left.

use crate::checksum::{combined, sha256, Checksum};
use crate::debversion::text_bytes;
use crate::idea::Idea;
use crate::package::{absorbed, Package};
use crate::Event;
use crate::EventModel;
use vstd::prelude::*;

verus! {

/// A student.
pub struct Student {
    id: usize,
    idea: Option<Idea>,
    pkgs: Vec<Package>,
    skipped_idea: bool,
}

/// A student as plain values: the idea in work with the number of packages
/// that it takes, the names of the packages at hand, and whether an idea was
/// passed on since the last event that said that none will come.
pub struct StudentModel {
    pub id: usize,
    pub idea: Option<IdeaModel>,
    pub pkgs: Seq<Seq<char>>,
    pub skipped_idea: bool,
}

/// An idea as plain values.
pub struct IdeaModel {
    pub name: Seq<char>,
    pub num_pkg_required: usize,
}

/// An idea that was built, and the packages that went into it.
#[derive(Debug, Clone, PartialEq, Eq)]
pub struct Built {
    pub idea_name: String,
    pub packages: Vec<Package>,
}

/// What a student did with an event: what was built, if anything; the
/// events to put back on the queue, in order; and whether the student has
/// gone home.
pub struct Step {
    pub built: Option<Built>,
    pub sends: Vec<Event>,
    pub finished: bool,
}

impl StudentModel {
    /// The student has an idea and the packages that it takes.
    pub open spec fn can_build(self) -> bool {
        self.idea is Some && self.idea->0.num_pkg_required <= self.pkgs.len()
    }

    /// The student after an attempt to build: the idea is gone with as many
    /// packages as it takes, the oldest first; or nothing has changed.
    pub open spec fn after_build(self) -> StudentModel {
        if self.can_build() {
            StudentModel { idea: None, pkgs: self.pkgs.skip(self.idea->0.num_pkg_required as int), ..self }
        } else {
            self
        }
    }

    /// The packages that go into the idea, where it can be built.
    pub open spec fn used(self) -> Seq<Seq<char>> {
        self.pkgs.take(self.idea->0.num_pkg_required as int)
    }

    /// The student after taking in an event, before any attempt to build.
    /// A new idea is taken where none is in work, and else passed on. A
    /// package is put with the others. Told that no idea will come, a
    /// student who passed one on or has one in work stays, and else gives
    /// all packages back.
    pub open spec fn after_event(self, e: EventModel) -> StudentModel {
        match e {
            EventModel::NewIdea { name, num_pkg_required } => if self.idea is None {
                StudentModel { idea: Some(IdeaModel { name, num_pkg_required }), ..self }
            } else {
                StudentModel { skipped_idea: true, ..self }
            },
            EventModel::DownloadComplete { name } => StudentModel {
                pkgs: self.pkgs.push(name),
                ..self
            },
            EventModel::OutOfIdeas => if self.skipped_idea || self.idea is Some {
                StudentModel { skipped_idea: false, ..self }
            } else {
                StudentModel { pkgs: Seq::empty(), ..self }
            },
        }
    }

    /// Whether the event makes the student try to build.
    pub open spec fn tries_to_build(self, e: EventModel) -> bool {
        match e {
            EventModel::NewIdea { .. } => self.idea is None,
            EventModel::DownloadComplete { .. } => true,
            EventModel::OutOfIdeas => false,
        }
    }

    /// Whether the event sends the student home.
    pub open spec fn goes_home(self, e: EventModel) -> bool {
        e is OutOfIdeas && !self.skipped_idea && self.idea is None
    }

    /// The events that the student puts back on the queue.
    pub open spec fn sends(self, e: EventModel) -> Seq<EventModel> {
        match e {
            EventModel::NewIdea { .. } => if self.idea is None {
                Seq::empty()
            } else {
                seq![e]
            },
            EventModel::DownloadComplete { .. } => Seq::empty(),
            EventModel::OutOfIdeas => if self.skipped_idea || self.idea is Some {
                seq![EventModel::OutOfIdeas]
            } else {
                Seq::new(
                    self.pkgs.len(),
                    |i: int| EventModel::DownloadComplete { name: self.pkgs[i] },
                )
            },
        }
    }
}

impl View for Student {
    type V = StudentModel;

    closed spec fn view(&self) -> StudentModel {
        StudentModel {
            id: self.id,
            idea: match self.idea {
                Some(idea) => Some(
                    IdeaModel { name: idea.name@, num_pkg_required: idea.num_pkg_required },
                ),
                None => None,
            },
            pkgs: self.pkgs.deep_view(),
            skipped_idea: self.skipped_idea,
        }
    }
}

impl Student {
    /// A student without idea or packages.
    pub fn new(id: usize) -> (r: Student)
        ensures
            r@ == (StudentModel {
                id: id,
                idea: None,
                pkgs: Seq::empty(),
                skipped_idea: false,
            }),
    {
        let r = Student { id, idea: None, pkgs: Vec::new(), skipped_idea: false };
        assert(r@.pkgs =~= Seq::<Seq<char>>::empty());
        r
    }

    /// The student's number.
    pub fn id(&self) -> (r: usize)
        ensures
            r == self@.id,
    {
        self.id
    }

    /// Builds the idea in work if the packages at hand suffice: the oldest
    /// packages go into it, and the two checksums take in the idea's name
    /// and the names of those packages. Else nothing changes.
    pub fn build_idea(&mut self, idea_checksum: &mut Checksum, pkg_checksum: &mut Checksum) -> (r:
        Option<Built>)
        ensures
            final(self)@ == old(self)@.after_build(),
            r is Some <==> old(self)@.can_build(),
            match r {
                Some(built) => {
                    &&& built.idea_name@ == old(self)@.idea->0.name
                    &&& built.packages.deep_view() == old(self)@.used()
                    &&& final(idea_checksum)@ == combined(
                        old(idea_checksum)@,
                        Some(sha256(text_bytes(old(self)@.idea->0.name))),
                    )
                    &&& final(pkg_checksum)@ == absorbed(old(pkg_checksum)@, old(self)@.used())
                },
                None => {
                    &&& final(idea_checksum)@ == old(idea_checksum)@
                    &&& final(pkg_checksum)@ == old(pkg_checksum)@
                },
            },
    {
        let pkgs_required = match &self.idea {
            Some(idea) => idea.num_pkg_required,
            None => {
                return None;
            },
        };
        if pkgs_required > self.pkgs.len() {
            return None;
        }
        let idea_name = match &self.idea {
            Some(idea) => idea.name.clone(),
            None => String::new(),
        };
        idea_checksum.update(Checksum::with_sha256(idea_name.as_str()));
        let ghost all = self.pkgs.deep_view();
        let rest = self.pkgs.split_off(pkgs_required);
        let mut pkgs_used = rest;
        std::mem::swap(&mut pkgs_used, &mut self.pkgs);
        let ghost used = pkgs_used.deep_view();
        assert(used =~= all.take(pkgs_required as int));
        assert(self.pkgs.deep_view() =~= all.skip(pkgs_required as int));
        let mut i: usize = 0;
        assert(used.take(0) =~= Seq::<Seq<char>>::empty());
        while i < pkgs_used.len()
            invariant
                i <= pkgs_used.len(),
                used == pkgs_used.deep_view(),
                pkg_checksum@ == absorbed(old(pkg_checksum)@, used.take(i as int)),
            decreases pkgs_used.len() - i,
        {
            assert(used.take(i + 1).drop_last() =~= used.take(i as int));
            pkg_checksum.update(Checksum::with_sha256(pkgs_used[i].name.as_str()));
            i += 1;
        }
        assert(used.take(pkgs_used.len() as int) =~= used);
        self.idea = None;
        Some(Built { idea_name, packages: pkgs_used })
    }

    /// Takes in one event and says what follows from it.
    pub fn handle_event(
        &mut self,
        event: Event,
        idea_checksum: &mut Checksum,
        pkg_checksum: &mut Checksum,
    ) -> (r: Step)
        ensures
            r.finished == old(self)@.goes_home(event.deep_view()),
            r.sends.deep_view() == old(self)@.sends(event.deep_view()),
            final(self)@ == if old(self)@.tries_to_build(event.deep_view()) {
                old(self)@.after_event(event.deep_view()).after_build()
            } else {
                old(self)@.after_event(event.deep_view())
            },
            r.built is Some <==> old(self)@.tries_to_build(event.deep_view()) && old(
                self,
            )@.after_event(event.deep_view()).can_build(),
            match r.built {
                Some(built) => {
                    let ready = old(self)@.after_event(event.deep_view());
                    &&& built.idea_name@ == ready.idea->0.name
                    &&& built.packages.deep_view() == ready.used()
                    &&& final(idea_checksum)@ == combined(
                        old(idea_checksum)@,
                        Some(sha256(text_bytes(ready.idea->0.name))),
                    )
                    &&& final(pkg_checksum)@ == absorbed(old(pkg_checksum)@, ready.used())
                },
                None => {
                    &&& final(idea_checksum)@ == old(idea_checksum)@
                    &&& final(pkg_checksum)@ == old(pkg_checksum)@
                },
            },
    {
        let ghost e = event.deep_view();
        let mut sends: Vec<Event> = Vec::new();
        let mut built: Option<Built> = None;
        let mut finished = false;
        match event {
            Event::NewIdea(idea) => {
                if self.idea.is_none() {
                    self.idea = Some(idea);
                    built = self.build_idea(idea_checksum, pkg_checksum);
                    assert(sends.deep_view() =~= old(self)@.sends(e));
                } else {
                    sends.push(Event::NewIdea(idea));
                    self.skipped_idea = true;
                    assert(sends.deep_view() =~= old(self)@.sends(e));
                }
            },
            Event::DownloadComplete(pkg) => {
                self.pkgs.push(pkg);
                assert(self.pkgs.deep_view() =~= old(self)@.pkgs.push(pkg.name@));
                built = self.build_idea(idea_checksum, pkg_checksum);
                assert(sends.deep_view() =~= old(self)@.sends(e));
            },
            Event::OutOfIdeas => {
                if self.skipped_idea || self.idea.is_some() {
                    sends.push(Event::OutOfIdeas);
                    self.skipped_idea = false;
                    assert(sends.deep_view() =~= old(self)@.sends(e));
                } else {
                    let mut i: usize = 0;
                    while i < self.pkgs.len()
                        invariant
                            i <= self.pkgs.len(),
                            self == old(self),
                            sends.len() == i,
                            forall|k: int|
                                0 <= k < i ==> (#[trigger] sends[k]).deep_view()
                                    == (EventModel::DownloadComplete {
                                    name: self.pkgs[k].name@,
                                }),
                        decreases self.pkgs.len() - i,
                    {
                        sends.push(Event::DownloadComplete(Package { name: self.pkgs[i].name.clone() }));
                        i += 1;
                    }
                    assert(sends.deep_view() =~= old(self)@.sends(e));
                    self.pkgs.clear();
                    assert(self.pkgs.deep_view() =~= Seq::<Seq<char>>::empty());
                    finished = true;
                }
            },
        }
        Step { built, sends, finished }
    }
}

} // verus!
