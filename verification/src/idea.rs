//! Ideas as the generators hand them out.

use crate::checksum::Checksum;
use crate::hackathon::{per_thread_amount, share};
use crate::package::absorbed;
use crate::Event;
use crate::EventModel;
use vstd::arithmetic::div_mod::{lemma_mod_bound, lemma_multiply_divide_lt};
use vstd::prelude::*;
use vstd::string::StringExecFns;

verus! {

/// An idea, and the number of packages that building it takes.
#[derive(Debug, Clone, PartialEq, Eq)]
pub struct Idea {
    pub name: String,
    pub num_pkg_required: usize,
}

/// The name of the idea at place `idx`: a product for a customer. The pairs
/// of product and customer are gone through again and again, all customers
/// for the first product first.
pub open spec fn idea_name(products: Seq<Seq<char>>, customers: Seq<Seq<char>>, idx: int) -> Seq<
    char,
> {
    let k = idx % (products.len() * customers.len()) as int;
    products[k / customers.len() as int] + " for "@ + customers[k % customers.len() as int]
}

/// The names of the `n` ideas from place `start` on.
pub open spec fn idea_names(
    products: Seq<Seq<char>>,
    customers: Seq<Seq<char>>,
    start: int,
    n: int,
) -> Seq<Seq<char>> {
    Seq::new(n as nat, |i: int| idea_name(products, customers, start + i))
}

/// The name of the idea at place `idx`.
pub fn get_next_idea_name(products: &Vec<String>, customers: &Vec<String>, idx: usize) -> (r:
    String)
    requires
        products.len() > 0,
        customers.len() > 0,
        products.len() * customers.len() <= usize::MAX,
    ensures
        r@ == idea_name(products.deep_view(), customers.deep_view(), idx as int),
{
    let pairs = products.len() * customers.len();
    assert(pairs > 0) by (nonlinear_arith)
        requires
            pairs == products.len() * customers.len(),
            products.len() > 0,
            customers.len() > 0,
    ;
    let k = idx % pairs;
    proof {
        lemma_mod_bound(idx as int, pairs as int);
        assert(customers.len() * products.len() == products.len() * customers.len())
            by (nonlinear_arith);
        lemma_multiply_divide_lt(k as int, customers.len() as int, products.len() as int);
        lemma_mod_bound(k as int, customers.len() as int);
    }
    let mut name = products[k / customers.len()].clone();
    name.append(" for ");
    name.append(customers[k % customers.len()].as_str());
    name
}

/// Generates a run of ideas.
pub struct IdeaGenerator {
    idea_start_idx: usize,
    num_ideas: usize,
    num_students: usize,
    num_pkgs: usize,
}

impl IdeaGenerator {
    /// The place of the first idea.
    pub closed spec fn start(&self) -> usize {
        self.idea_start_idx
    }

    /// The number of ideas.
    pub closed spec fn ideas(&self) -> usize {
        self.num_ideas
    }

    /// The number of students to send home at the end.
    pub closed spec fn students(&self) -> usize {
        self.num_students
    }

    /// The number of packages that the ideas take together.
    pub closed spec fn packages(&self) -> usize {
        self.num_pkgs
    }

    /// A generator of `num_ideas` ideas from place `idea_start_idx` on,
    /// which take `num_pkgs` packages together, for `num_students` students.
    pub fn new(idea_start_idx: usize, num_ideas: usize, num_students: usize, num_pkgs: usize) -> (r:
        IdeaGenerator)
        ensures
            r.start() == idea_start_idx,
            r.ideas() == num_ideas,
            r.students() == num_students,
            r.packages() == num_pkgs,
    {
        IdeaGenerator { idea_start_idx, num_ideas, num_students, num_pkgs }
    }

    /// The events of this generator and the checksum of the ideas' names.
    /// First comes one event for each idea, in order; the packages are
    /// shared out among the ideas, the first ideas getting one more where
    /// the division leaves a rest. Then comes one event for each student
    /// that says that no more ideas will come.
    pub fn run(&self, products: &Vec<String>, customers: &Vec<String>) -> (r: (
        Vec<Event>,
        Checksum,
    ))
        requires
            self.ideas() > 0,
            products.len() > 0,
            customers.len() > 0,
            products.len() * customers.len() <= usize::MAX,
            self.start() + self.ideas() <= usize::MAX,
            self.ideas() + self.students() <= usize::MAX,
        ensures
            r.0.len() == self.ideas() + self.students(),
            forall|i: int|
                0 <= i < self.ideas() ==> (#[trigger] r.0[i]).deep_view() == (EventModel::NewIdea {
                    name: idea_name(
                        products.deep_view(),
                        customers.deep_view(),
                        self.start() + i,
                    ),
                    num_pkg_required: share(
                        i,
                        self.packages() as int,
                        self.ideas() as int,
                    ) as usize,
                }),
            forall|i: int|
                self.ideas() <= i < r.0.len() ==> (#[trigger] r.0[i]).deep_view()
                    == EventModel::OutOfIdeas,
            r.1@ == absorbed(
                None,
                idea_names(
                    products.deep_view(),
                    customers.deep_view(),
                    self.start() as int,
                    self.ideas() as int,
                ),
            ),
    {
        let mut local_checksum = Checksum::default();
        let mut events: Vec<Event> = Vec::new();
        let ghost names = idea_names(
            products.deep_view(),
            customers.deep_view(),
            self.idea_start_idx as int,
            self.num_ideas as int,
        );
        let mut i: usize = 0;
        assert(names.take(0) =~= Seq::<Seq<char>>::empty());
        while i < self.num_ideas
            invariant
                i <= self.num_ideas,
                self.num_ideas > 0,
                products.len() > 0,
                customers.len() > 0,
                products.len() * customers.len() <= usize::MAX,
                self.idea_start_idx + self.num_ideas <= usize::MAX,
                names == idea_names(
                    products.deep_view(),
                    customers.deep_view(),
                    self.idea_start_idx as int,
                    self.num_ideas as int,
                ),
                events.len() == i,
                forall|k: int|
                    0 <= k < i ==> (#[trigger] events[k]).deep_view() == (EventModel::NewIdea {
                        name: idea_name(
                            products.deep_view(),
                            customers.deep_view(),
                            self.idea_start_idx + k,
                        ),
                        num_pkg_required: share(
                            k,
                            self.num_pkgs as int,
                            self.num_ideas as int,
                        ) as usize,
                    }),
                local_checksum@ == absorbed(None, names.take(i as int)),
            decreases self.num_ideas - i,
        {
            let name = get_next_idea_name(products, customers, self.idea_start_idx + i);
            let num_pkg_required = per_thread_amount(i, self.num_pkgs, self.num_ideas);
            assert(name@ == names[i as int]);
            assert(names.take(i + 1).drop_last() =~= names.take(i as int));
            local_checksum.update(Checksum::with_sha256(name.as_str()));
            events.push(Event::NewIdea(Idea { name, num_pkg_required }));
            i += 1;
        }
        assert(names.take(self.num_ideas as int) =~= names);
        let mut s: usize = 0;
        while s < self.num_students
            invariant
                s <= self.num_students,
                self.num_ideas + self.num_students <= usize::MAX,
                events.len() == self.num_ideas + s,
                forall|k: int|
                    0 <= k < self.num_ideas ==> (#[trigger] events[k]).deep_view()
                        == (EventModel::NewIdea {
                        name: idea_name(
                            products.deep_view(),
                            customers.deep_view(),
                            self.idea_start_idx + k,
                        ),
                        num_pkg_required: share(
                            k,
                            self.num_pkgs as int,
                            self.num_ideas as int,
                        ) as usize,
                    }),
                forall|k: int|
                    self.num_ideas <= k < events.len() ==> (#[trigger] events[k]).deep_view()
                        == EventModel::OutOfIdeas,
            decreases self.num_students - s,
        {
            events.push(Event::OutOfIdeas);
            s += 1;
        }
        (events, local_checksum)
    }
}

} // verus!
