use slic::spacing::{Outcome, Search, Verdict};

#[test]
fn close_spacing_ends_the_search() {
    let search = Search::new(10, 90, 8);
    assert_eq!(search.narrow(50, Verdict::Close), Outcome::Found(50));
}

#[test]
fn too_few_centroids_lower_the_upper_bound() {
    let search = Search::new(10, 90, 8);
    assert_eq!(
        search.narrow(50, Verdict::TooFew),
        Outcome::Narrowed(Search { lower: 10, upper: 50, steps_left: 7 })
    );
}

#[test]
fn too_many_centroids_raise_the_lower_bound() {
    let search = Search::new(10, 90, 8);
    assert_eq!(
        search.narrow(50, Verdict::TooMany),
        Outcome::Narrowed(Search { lower: 50, upper: 90, steps_left: 7 })
    );
}

#[test]
fn last_step_ends_the_search() {
    assert_eq!(Search::new(10, 90, 1).narrow(50, Verdict::TooMany), Outcome::Found(50));
    assert_eq!(Search::new(10, 90, 0).narrow(50, Verdict::TooFew), Outcome::Found(50));
    assert_eq!(
        Search::new(10, 90, 2).narrow(50, Verdict::TooFew),
        Outcome::Narrowed(Search { lower: 10, upper: 50, steps_left: 1 })
    );
}

#[test]
fn search_ends_within_its_steps() {
    for steps in 0..20usize {
        let mut search = Search::new(0, 1000, steps);
        let mut tried = 0;
        loop {
            tried += 1;
            let mid = (search.lower + search.upper) / 2;
            let verdict = if tried % 2 == 0 { Verdict::TooFew } else { Verdict::TooMany };
            match search.narrow(mid, verdict) {
                Outcome::Found(found) => {
                    assert_eq!(found, mid);
                    break;
                }
                Outcome::Narrowed(narrower) => search = narrower,
            }
            assert!(tried < 100);
        }
        assert_eq!(tried, steps.max(1));
    }
}
