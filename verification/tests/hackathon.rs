use rpkg::checksum::Checksum;
use rpkg::hackathon::{allocate, per_thread_amount};
use rpkg::idea::{get_next_idea_name, Idea, IdeaGenerator};
use rpkg::package::{Package, PackageDownloader};
use rpkg::student::{Built, Student};
use rpkg::Event;

const ABC: &str = "ba7816bf8f01cfea414140de5dae2223b00361a396177a9cb410ff61f20015ad";
const EMPTY: &str = "e3b0c44298fc1c149afbf4c8996fb92427ae41e4649b934ca495991b7852b855";
const ZEROS: &str = "0000000000000000000000000000000000000000000000000000000000000000";

fn strings(items: &[&str]) -> Vec<String> {
    items.iter().map(|s| s.to_string()).collect()
}

fn sum_of(names: &[&str]) -> String {
    let mut c = Checksum::default();
    for name in names {
        c.update(Checksum::with_sha256(name));
    }
    c.to_string()
}

#[test]
fn a_checksum_is_written_in_lower_case_hex() {
    assert_eq!(Checksum::default().to_string(), "");
    assert_eq!(Checksum::with_sha256("abc").to_string(), ABC);
    assert_eq!(Checksum::with_sha256("").to_string(), EMPTY);
    let mut digest = [0u8; 32];
    digest[0] = 0x0f;
    digest[1] = 0xa0;
    digest[31] = 0xff;
    assert_eq!(
        Checksum::from_digest(digest).to_string(),
        "0fa00000000000000000000000000000000000000000000000000000000000ff"
    );
}

#[test]
fn checksums_are_combined_by_exclusive_or() {
    let mut c = Checksum::default();
    c.update(Checksum::default());
    assert_eq!(c.to_string(), "");
    c.update(Checksum::with_sha256("abc"));
    assert_eq!(c.to_string(), ABC);
    c.update(Checksum::default());
    assert_eq!(c.to_string(), ABC);
    c.merge(Checksum::with_sha256("abc"));
    assert_eq!(c.to_string(), ZEROS);
    c.merge(Checksum::with_sha256(""));
    assert_eq!(c.to_string(), EMPTY);
    let mut a = Checksum::from_digest([0b1100; 32]);
    a.update(Checksum::from_digest([0b1010; 32]));
    assert_eq!(a.to_string(), "06".repeat(32));
}

#[test]
fn combining_does_not_depend_on_order_or_grouping() {
    assert_eq!(sum_of(&["a", "b", "c"]), sum_of(&["c", "a", "b"]));
    let mut left = Checksum::with_sha256("a");
    left.update(Checksum::with_sha256("b"));
    left.update(Checksum::with_sha256("c"));
    let mut right = Checksum::with_sha256("b");
    right.update(Checksum::with_sha256("c"));
    let mut whole = Checksum::with_sha256("a");
    whole.update(right);
    assert_eq!(left.to_string(), whole.to_string());
    assert_ne!(sum_of(&["a", "b"]), sum_of(&["a", "c"]));
}

#[test]
fn items_are_shared_out_evenly() {
    assert_eq!(per_thread_amount(0, 10, 3), 4);
    assert_eq!(per_thread_amount(1, 10, 3), 3);
    assert_eq!(per_thread_amount(2, 10, 3), 3);
    assert_eq!(per_thread_amount(0, 4000, 6), 667);
    assert_eq!(per_thread_amount(3, 4000, 6), 667);
    assert_eq!(per_thread_amount(4, 4000, 6), 666);
    assert_eq!(per_thread_amount(5, 2, 6), 0);
    assert_eq!(per_thread_amount(0, 0, 1), 0);
    assert_eq!(per_thread_amount(0, usize::MAX, 1), usize::MAX);
    assert_eq!(per_thread_amount(7, 5, 2), 2);
}

#[test]
fn the_shares_cover_everything() {
    assert_eq!(allocate(10, 3), vec![(0, 4), (4, 3), (7, 3)]);
    assert_eq!(allocate(2, 4), vec![(0, 1), (1, 1), (2, 0), (2, 0)]);
    assert_eq!(allocate(0, 2), vec![(0, 0), (0, 0)]);
    for (total, count) in [(80usize, 2usize), (4000, 6), (7, 7), (1, 5), (usize::MAX, 3)] {
        let ranges = allocate(total, count);
        assert_eq!(ranges.len(), count);
        let mut next = 0usize;
        for (i, (start, amount)) in ranges.iter().enumerate() {
            assert_eq!(*start, next);
            assert_eq!(*amount, per_thread_amount(i, total, count));
            next = start + amount;
        }
        assert_eq!(next, total);
    }
}

#[test]
fn idea_names_go_through_all_pairs() {
    let products = strings(&["app", "toy"]);
    let customers = strings(&["cats", "dogs", "fish"]);
    let names: Vec<String> =
        (0..7).map(|idx| get_next_idea_name(&products, &customers, idx)).collect();
    assert_eq!(
        names,
        strings(&[
            "app for cats",
            "app for dogs",
            "app for fish",
            "toy for cats",
            "toy for dogs",
            "toy for fish",
            "app for cats",
        ])
    );
}

#[test]
fn a_generator_sends_ideas_and_then_sends_the_students_home() {
    let products = strings(&["app", "toy"]);
    let customers = strings(&["cats", "dogs"]);
    let generator = IdeaGenerator::new(3, 3, 2, 7);
    let (events, checksum) = generator.run(&products, &customers);
    assert_eq!(
        events,
        vec![
            Event::NewIdea(Idea { name: "toy for dogs".to_string(), num_pkg_required: 3 }),
            Event::NewIdea(Idea { name: "app for cats".to_string(), num_pkg_required: 2 }),
            Event::NewIdea(Idea { name: "app for dogs".to_string(), num_pkg_required: 2 }),
            Event::OutOfIdeas,
            Event::OutOfIdeas,
        ]
    );
    assert_eq!(checksum.to_string(), sum_of(&["toy for dogs", "app for cats", "app for dogs"]));
}

#[test]
fn a_downloader_goes_round_the_package_list() {
    let lines = strings(&["p0", "p1", "p2"]);
    let (events, checksum) = PackageDownloader::new(2, 4).run(&lines);
    assert_eq!(
        events,
        vec![
            Event::DownloadComplete(Package { name: "p2".to_string() }),
            Event::DownloadComplete(Package { name: "p0".to_string() }),
            Event::DownloadComplete(Package { name: "p1".to_string() }),
            Event::DownloadComplete(Package { name: "p2".to_string() }),
        ]
    );
    assert_eq!(checksum.to_string(), sum_of(&["p2", "p0", "p1", "p2"]));
    let (events, checksum) = PackageDownloader::new(0, 0).run(&vec![]);
    assert!(events.is_empty());
    assert_eq!(checksum.to_string(), "");
}

#[test]
fn a_student_builds_once_the_packages_suffice() {
    let mut student = Student::new(4);
    assert_eq!(student.id(), 4);
    let mut ideas = Checksum::default();
    let mut pkgs = Checksum::default();
    let pkg = |name: &str| Event::DownloadComplete(Package { name: name.to_string() });
    let idea = |name: &str, n: usize| {
        Event::NewIdea(Idea { name: name.to_string(), num_pkg_required: n })
    };

    let step = student.handle_event(pkg("p1"), &mut ideas, &mut pkgs);
    assert!(step.built.is_none() && step.sends.is_empty() && !step.finished);

    let step = student.handle_event(idea("first", 2), &mut ideas, &mut pkgs);
    assert!(step.built.is_none() && step.sends.is_empty() && !step.finished);
    assert_eq!(ideas.to_string(), "");

    let step = student.handle_event(idea("second", 1), &mut ideas, &mut pkgs);
    assert!(step.built.is_none() && !step.finished);
    assert_eq!(step.sends, vec![idea("second", 1)]);

    let step = student.handle_event(Event::OutOfIdeas, &mut ideas, &mut pkgs);
    assert_eq!(step.sends, vec![Event::OutOfIdeas]);
    assert!(!step.finished);

    let step = student.handle_event(Event::OutOfIdeas, &mut ideas, &mut pkgs);
    assert_eq!(step.sends, vec![Event::OutOfIdeas]);
    assert!(!step.finished);

    let step = student.handle_event(pkg("p2"), &mut ideas, &mut pkgs);
    assert_eq!(
        step.built,
        Some(Built {
            idea_name: "first".to_string(),
            packages: vec![
                Package { name: "p1".to_string() },
                Package { name: "p2".to_string() }
            ],
        })
    );
    assert!(step.sends.is_empty() && !step.finished);
    assert_eq!(ideas.to_string(), sum_of(&["first"]));
    assert_eq!(pkgs.to_string(), sum_of(&["p1", "p2"]));

    student.handle_event(pkg("p3"), &mut ideas, &mut pkgs);
    student.handle_event(pkg("p4"), &mut ideas, &mut pkgs);
    let step = student.handle_event(idea("third", 1), &mut ideas, &mut pkgs);
    assert_eq!(
        step.built,
        Some(Built {
            idea_name: "third".to_string(),
            packages: vec![Package { name: "p3".to_string() }],
        })
    );
    assert_eq!(ideas.to_string(), sum_of(&["first", "third"]));
    assert_eq!(pkgs.to_string(), sum_of(&["p1", "p2", "p3"]));

    let step = student.handle_event(idea("free", 0), &mut ideas, &mut pkgs);
    assert_eq!(step.built, Some(Built { idea_name: "free".to_string(), packages: vec![] }));

    let step = student.handle_event(Event::OutOfIdeas, &mut ideas, &mut pkgs);
    assert!(step.finished && step.built.is_none());
    assert_eq!(step.sends, vec![pkg("p4")]);

    let step = student.handle_event(Event::OutOfIdeas, &mut ideas, &mut pkgs);
    assert!(step.finished && step.sends.is_empty());
}

#[test]
fn build_idea_does_nothing_without_idea_or_packages() {
    let mut student = Student::new(0);
    let mut ideas = Checksum::default();
    let mut pkgs = Checksum::default();
    assert_eq!(student.build_idea(&mut ideas, &mut pkgs), None);
    student.handle_event(
        Event::NewIdea(Idea { name: "i".to_string(), num_pkg_required: 1 }),
        &mut ideas,
        &mut pkgs,
    );
    assert_eq!(student.build_idea(&mut ideas, &mut pkgs), None);
    assert_eq!(ideas.to_string(), "");
    assert_eq!(pkgs.to_string(), "");
}
