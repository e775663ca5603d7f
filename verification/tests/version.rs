use std::cmp::Ordering;
use std::cmp::Ordering::{Equal, Greater, Less};

use nreplops_tool::version::{
    Version, VersionBlock as B, VersionExpr as E, VersionRange,
};

fn v(s: &str) -> Version {
    match s.parse() {
        Ok(v) => v,
        Err(e) => panic!(
            "failed to parse version: input = \"{}\", error = {:?}",
            s, e
        ),
    }
}

fn b(s: &str) -> B {
    match s.parse() {
        Ok(v) => v,
        Err(e) => panic!(
            "failed to parse version block: input = \"{}\", error = {:?}",
            s, e
        ),
    }
}

fn e(s: &str) -> E {
    match s.parse() {
        Ok(v) => v,
        Err(e) => panic!(
            "failed to parse version expression: input = \"{}\", error = {:?}",
            s, e
        ),
    }
}

fn assert_version_parsing_fails(s: &str) {
    if s.parse::<Version>().is_ok() {
        panic!("version parsing should have failed: input = \"{}\"", s);
    }
}

fn assert_block_parsing_fails(s: &str) {
    if s.parse::<Version>().is_ok() {
        panic!(
            "version block parsing should have failed: input = \"{}\"",
            s
        );
    }
}

fn assert_expression_parsing_fails(s: &str) {
    if s.parse::<Version>().is_ok() {
        panic!(
            "version expression parsing should have failed: input = \"{}\"",
            s
        );
    }
}

#[test]
fn parsing_version() {
    assert!(matches!(v("1.2.3"), Version(1, 2, 3)));

    assert_version_parsing_fails("");
    assert_version_parsing_fails(" ");
    assert_version_parsing_fails("1.2.3 ");
    assert_version_parsing_fails(" 1.2.3");
    assert_version_parsing_fails("1");
    assert_version_parsing_fails("1.");
    assert_version_parsing_fails("1.2");
    assert_version_parsing_fails("1.2.");
    assert_version_parsing_fails("1.2.3.");
    assert_version_parsing_fails("1.2.3.4");
    assert_version_parsing_fails("whatever");
}

#[test]
fn displaying_version() {
    assert_eq!(Version(123, 456, 789).to_string(), "123.456.789");
}

#[test]
fn parsing_version_block() {
    assert!(matches!(b("1"), B::Major(1)));
    assert!(matches!(b("1.2"), B::Minor(1, 2)));
    assert!(matches!(b("1.2.3"), B::Patch(1, 2, 3)));

    assert_block_parsing_fails("");
    assert_block_parsing_fails(" ");
    assert_block_parsing_fails("1 ");
    assert_block_parsing_fails(" 1");
    assert_block_parsing_fails("1.2 ");
    assert_block_parsing_fails(" 1.2");
    assert_block_parsing_fails("1.2.3 ");
    assert_block_parsing_fails(" 1.2.3");
    assert_block_parsing_fails("1.");
    assert_block_parsing_fails("1.2.");
    assert_block_parsing_fails("1.2.3.");
    assert_block_parsing_fails("1.2.3.4");
    assert_block_parsing_fails("whatever");
}

#[test]
fn displaying_version_block() {
    assert_eq!(B::Major(123).to_string(), "123");
    assert_eq!(B::Minor(123, 456).to_string(), "123.456");
    assert_eq!(B::Patch(123, 456, 789).to_string(), "123.456.789");
}

#[test]
fn parsing_version_expression() {
    assert!(matches!(e("1"), E::MinSemVer(B::Major(1))));
    assert!(matches!(e("1.2"), E::MinSemVer(B::Minor(1, 2))));
    assert!(matches!(e("1.2.3"), E::MinSemVer(B::Patch(1, 2, 3))));

    assert!(matches!(e("1..4"), E::RangeExcl(B::Major(1), B::Major(4))));
    assert!(matches!(
        e("1.2..4.5"),
        E::RangeExcl(B::Minor(1, 2), B::Minor(4, 5))
    ));
    assert!(matches!(
        e("1.2.3..4.5.6"),
        E::RangeExcl(B::Patch(1, 2, 3), B::Patch(4, 5, 6))
    ));

    assert!(matches!(e("1..=4"), E::RangeIncl(B::Major(1), B::Major(4))));
    assert!(matches!(
        e("1.2..=4.5"),
        E::RangeIncl(B::Minor(1, 2), B::Minor(4, 5))
    ));
    assert!(matches!(
        e("1.2.3..=4.5.6"),
        E::RangeIncl(B::Patch(1, 2, 3), B::Patch(4, 5, 6))
    ));

    assert!(matches!(e("1.."), E::From(B::Major(1))));
    assert!(matches!(e("1.2.."), E::From(B::Minor(1, 2))));
    assert!(matches!(e("1.2.3.."), E::From(B::Patch(1, 2, 3))));

    assert!(matches!(e("..4"), E::UpToExcl(B::Major(4))));
    assert!(matches!(e("..4.5"), E::UpToExcl(B::Minor(4, 5))));
    assert!(matches!(e("..4.5.6"), E::UpToExcl(B::Patch(4, 5, 6))));

    assert!(matches!(e("..=4"), E::UpToIncl(B::Major(4))));
    assert!(matches!(e("..=4.5"), E::UpToIncl(B::Minor(4, 5))));
    assert!(matches!(e("..=4.5.6"), E::UpToIncl(B::Patch(4, 5, 6))));

    assert_expression_parsing_fails("");
    assert_expression_parsing_fails(" ");

    assert_expression_parsing_fails("1.2.3 ");
    assert_expression_parsing_fails(" 1");
    assert_expression_parsing_fails("1.2 ");
    assert_expression_parsing_fails(" 1.2");
    assert_expression_parsing_fails("1.2.3 ");
    assert_expression_parsing_fails(" 1.2.3");

    assert_expression_parsing_fails("1.");
    assert_expression_parsing_fails("1.2.");
    assert_expression_parsing_fails("1.2.3.");
    assert_expression_parsing_fails("1.2.3.4");

    assert_expression_parsing_fails("1...4");
    assert_expression_parsing_fails("1.2.3...4");
    assert_expression_parsing_fails("1...4.5.6");
    assert_expression_parsing_fails("1.2.3...4.5.6");

    assert_expression_parsing_fails("1.=4");
    assert_expression_parsing_fails("1.2.3.=4");
    assert_expression_parsing_fails("1.=4.5.6");
    assert_expression_parsing_fails("1.2.3.=4.5.6");

    assert_expression_parsing_fails("1...=4");
    assert_expression_parsing_fails("1.2.3...=4");
    assert_expression_parsing_fails("1...=4.5.6");
    assert_expression_parsing_fails("1.2.3...=4.5.6");

    assert_expression_parsing_fails("1...");
    assert_expression_parsing_fails("1.2.3...");

    assert_expression_parsing_fails(".=4");
    assert_expression_parsing_fails(".=4.5.6");
    assert_expression_parsing_fails("...=4");
    assert_expression_parsing_fails("...=4.5.6");

    assert_expression_parsing_fails(".4");
    assert_expression_parsing_fails(".4.5.6");
    assert_expression_parsing_fails("...4");
    assert_expression_parsing_fails("...4.5.6");

    assert_expression_parsing_fails("whatever");
}

#[test]
fn displaying_version_expression() {
    // below 1.0
    assert_eq!(E::MinSemVer(B::Major(0)).to_string(), "0..0.1");
    assert_eq!(E::MinSemVer(B::Minor(0, 1)).to_string(), "0.1..0.2");
    assert_eq!(E::MinSemVer(B::Patch(0, 1, 2)).to_string(), "0.1.2..0.2");

    // from 1.0 onwards
    assert_eq!(E::MinSemVer(B::Major(1)).to_string(), "1..2");
    assert_eq!(E::MinSemVer(B::Minor(1, 2)).to_string(), "1.2..2");
    assert_eq!(E::MinSemVer(B::Patch(1, 2, 3)).to_string(), "1.2.3..2");

    assert_eq!(E::RangeExcl(B::Major(1), B::Major(4)).to_string(), "1..4");
    assert_eq!(
        E::RangeExcl(B::Minor(1, 2), B::Minor(4, 5)).to_string(),
        "1.2..4.5"
    );
    assert_eq!(
        E::RangeExcl(B::Patch(1, 2, 3), B::Patch(4, 5, 6)).to_string(),
        "1.2.3..4.5.6"
    );

    assert_eq!(E::RangeIncl(B::Major(1), B::Major(4)).to_string(), "1..=4");
    assert_eq!(
        E::RangeIncl(B::Minor(1, 2), B::Minor(4, 5)).to_string(),
        "1.2..=4.5"
    );
    assert_eq!(
        E::RangeIncl(B::Patch(1, 2, 3), B::Patch(4, 5, 6)).to_string(),
        "1.2.3..=4.5.6"
    );

    assert_eq!(E::UpToExcl(B::Major(4)).to_string(), "..4");
    assert_eq!(E::UpToExcl(B::Minor(4, 5)).to_string(), "..4.5");
    assert_eq!(E::UpToExcl(B::Patch(4, 5, 6)).to_string(), "..4.5.6");

    assert_eq!(E::UpToIncl(B::Major(4)).to_string(), "..=4");
    assert_eq!(E::UpToIncl(B::Minor(4, 5)).to_string(), "..=4.5");
    assert_eq!(E::UpToIncl(B::Patch(4, 5, 6)).to_string(), "..=4.5.6");

    assert_eq!(E::From(B::Major(1)).to_string(), "1..");
    assert_eq!(E::From(B::Minor(1, 2)).to_string(), "1.2..");
    assert_eq!(E::From(B::Patch(1, 2, 3)).to_string(), "1.2.3..");
}

#[test]
fn next_breaking_version() {
    // below 1.0
    assert!(matches!(Version(0, 0, 0).next_break(), B::Minor(0, 1)));
    assert!(matches!(Version(0, 0, 1).next_break(), B::Minor(0, 1)));
    assert!(matches!(Version(0, 1, 0).next_break(), B::Minor(0, 2)));
    assert!(matches!(Version(0, 1, 1).next_break(), B::Minor(0, 2)));

    // from 1.0 onwards
    assert!(matches!(Version(1, 0, 0).next_break(), B::Major(2)));
    assert!(matches!(Version(1, 0, 1).next_break(), B::Major(2)));
    assert!(matches!(Version(1, 1, 0).next_break(), B::Major(2)));
    assert!(matches!(Version(1, 1, 1).next_break(), B::Major(2)));
}

#[test]
fn version_block_starts() {
    // below 1.0
    assert_eq!(B::Major(0).start(), Some(Version(0, 0, 0)));
    assert_eq!(B::Minor(0, 0).start(), Some(Version(0, 0, 0)));
    assert_eq!(B::Patch(0, 0, 0).start(), Some(Version(0, 0, 0)));

    // from 1.0 onwards
    assert_eq!(B::Major(1).start(), Some(Version(1, 0, 0)));
    assert_eq!(B::Minor(1, 2).start(), Some(Version(1, 2, 0)));
    assert_eq!(B::Patch(1, 2, 3).start(), Some(Version(1, 2, 3)));
}

#[test]
fn version_block_stops() {
    // below 1.0
    assert_eq!(B::Major(0).stop(), Some(Version(1, 0, 0)));
    assert_eq!(B::Minor(0, 0).stop(), Some(Version(0, 1, 0)));
    assert_eq!(B::Patch(0, 0, 0).stop(), Some(Version(0, 0, 1)));

    // from 1.0 onwards
    assert_eq!(B::Major(1).stop(), Some(Version(2, 0, 0)));
    assert_eq!(B::Minor(1, 2).stop(), Some(Version(1, 3, 0)));
    assert_eq!(B::Patch(1, 2, 3).stop(), Some(Version(1, 2, 4)));
}

#[test]
fn start_of_expression() {
    // below 1.0
    assert_eq!(E::MinSemVer(B::Major(0)).start(), Some(Version(0, 0, 0)));
    assert_eq!(E::MinSemVer(B::Minor(0, 0)).start(), Some(Version(0, 0, 0)));
    assert_eq!(
        E::MinSemVer(B::Patch(0, 0, 0)).start(),
        Some(Version(0, 0, 0))
    );

    // from 1.0 onwards
    assert_eq!(E::MinSemVer(B::Major(1)).start(), Some(Version(1, 0, 0)));
    assert_eq!(E::MinSemVer(B::Minor(1, 2)).start(), Some(Version(1, 2, 0)));
    assert_eq!(
        E::MinSemVer(B::Patch(1, 2, 3)).start(),
        Some(Version(1, 2, 3))
    );

    assert_eq!(
        E::RangeExcl(B::Major(1), B::Major(4)).start(),
        Some(Version(1, 0, 0))
    );
    assert_eq!(
        E::RangeExcl(B::Minor(1, 2), B::Minor(4, 5)).start(),
        Some(Version(1, 2, 0))
    );
    assert_eq!(
        E::RangeExcl(B::Patch(1, 2, 3), B::Patch(4, 5, 6)).start(),
        Some(Version(1, 2, 3))
    );

    assert_eq!(
        E::RangeIncl(B::Major(1), B::Major(4)).start(),
        Some(Version(1, 0, 0))
    );
    assert_eq!(
        E::RangeIncl(B::Minor(1, 2), B::Minor(4, 5)).start(),
        Some(Version(1, 2, 0))
    );
    assert_eq!(
        E::RangeIncl(B::Patch(1, 2, 3), B::Patch(4, 5, 6)).start(),
        Some(Version(1, 2, 3))
    );

    assert_eq!(E::UpToExcl(B::Major(4)).start(), None);
    assert_eq!(E::UpToExcl(B::Minor(4, 5)).start(), None);
    assert_eq!(E::UpToExcl(B::Patch(4, 5, 6)).start(), None);

    assert_eq!(E::UpToIncl(B::Major(4)).start(), None);
    assert_eq!(E::UpToIncl(B::Minor(4, 5)).start(), None);
    assert_eq!(E::UpToIncl(B::Patch(4, 5, 6)).start(), None);

    assert_eq!(E::From(B::Major(1)).start(), Some(Version(1, 0, 0)));
    assert_eq!(E::From(B::Minor(1, 2)).start(), Some(Version(1, 2, 0)));
    assert_eq!(E::From(B::Patch(1, 2, 3)).start(), Some(Version(1, 2, 3)));
}

#[test]
fn stop_of_expression() {
    // below 1.0
    assert_eq!(E::MinSemVer(B::Major(0)).stop(), Some(Version(0, 1, 0)));
    assert_eq!(E::MinSemVer(B::Minor(0, 0)).stop(), Some(Version(0, 1, 0)));
    assert_eq!(
        E::MinSemVer(B::Patch(0, 0, 0)).stop(),
        Some(Version(0, 1, 0))
    );

    // from 1.0 onwards
    assert_eq!(E::MinSemVer(B::Major(1)).stop(), Some(Version(2, 0, 0)));
    assert_eq!(E::MinSemVer(B::Minor(1, 2)).stop(), Some(Version(2, 0, 0)));
    assert_eq!(
        E::MinSemVer(B::Patch(1, 2, 3)).stop(),
        Some(Version(2, 0, 0))
    );

    assert_eq!(
        E::RangeExcl(B::Major(1), B::Major(4)).stop(),
        Some(Version(4, 0, 0))
    );
    assert_eq!(
        E::RangeExcl(B::Minor(1, 2), B::Minor(4, 5)).stop(),
        Some(Version(4, 5, 0))
    );
    assert_eq!(
        E::RangeExcl(B::Patch(1, 2, 3), B::Patch(4, 5, 6)).stop(),
        Some(Version(4, 5, 6))
    );

    assert_eq!(
        E::RangeIncl(B::Major(1), B::Major(4)).stop(),
        Some(Version(5, 0, 0))
    );
    assert_eq!(
        E::RangeIncl(B::Minor(1, 2), B::Minor(4, 5)).stop(),
        Some(Version(4, 6, 0))
    );
    assert_eq!(
        E::RangeIncl(B::Patch(1, 2, 3), B::Patch(4, 5, 6)).stop(),
        Some(Version(4, 5, 7))
    );

    assert_eq!(E::UpToExcl(B::Major(4)).stop(), Some(Version(4, 0, 0)));
    assert_eq!(E::UpToExcl(B::Minor(4, 5)).stop(), Some(Version(4, 5, 0)));
    assert_eq!(
        E::UpToExcl(B::Patch(4, 5, 6)).stop(),
        Some(Version(4, 5, 6))
    );

    assert_eq!(E::UpToIncl(B::Major(4)).stop(), Some(Version(5, 0, 0)));
    assert_eq!(E::UpToIncl(B::Minor(4, 5)).stop(), Some(Version(4, 6, 0)));
    assert_eq!(
        E::UpToIncl(B::Patch(4, 5, 6)).stop(),
        Some(Version(4, 5, 7))
    );

    assert_eq!(E::From(B::Major(1)).stop(), None);
    assert_eq!(E::From(B::Minor(1, 2)).stop(), None);
    assert_eq!(E::From(B::Patch(1, 2, 3)).stop(), None);
}

#[test]
fn comparing_version_against_expression() {
    const MAX_VERNUM: u16 = 0xFFFF - 1;

    let v = Version(1, 2, 3);

    assert_eq!(v.range_cmp(&E::MinSemVer(B::Major(0))), Greater);
    assert_eq!(v.range_cmp(&E::MinSemVer(B::Major(1))), Equal);
    assert_eq!(v.range_cmp(&E::MinSemVer(B::Major(2))), Less);

    assert_eq!(v.range_cmp(&E::MinSemVer(B::Minor(0, MAX_VERNUM))), Greater);
    assert_eq!(v.range_cmp(&E::MinSemVer(B::Minor(1, 2))), Equal);
    assert_eq!(v.range_cmp(&E::MinSemVer(B::Minor(1, 3))), Less);

    assert_eq!(
        v.range_cmp(&E::MinSemVer(B::Patch(0, MAX_VERNUM, MAX_VERNUM))),
        Greater
    );
    assert_eq!(v.range_cmp(&E::MinSemVer(B::Patch(1, 2, 3))), Equal);
    assert_eq!(v.range_cmp(&E::MinSemVer(B::Patch(1, 2, 4))), Less);

    assert_eq!(v.range_cmp(&E::RangeExcl(B::Major(0), B::Major(1))), Greater);
    assert_eq!(v.range_cmp(&E::RangeExcl(B::Major(1), B::Major(2))), Equal);
    assert_eq!(v.range_cmp(&E::RangeExcl(B::Major(2), B::Major(3))), Less);

    assert_eq!(
        v.range_cmp(&E::RangeExcl(B::Minor(0, 0), B::Minor(1, 2))),
        Greater
    );
    assert_eq!(
        v.range_cmp(&E::RangeExcl(B::Minor(1, 2), B::Minor(1, 3))),
        Equal
    );
    assert_eq!(
        v.range_cmp(&E::RangeExcl(B::Minor(1, 3), B::Minor(3, 0))),
        Less
    );

    assert_eq!(
        v.range_cmp(&E::RangeExcl(B::Patch(0, 0, 0), B::Patch(1, 2, 3))),
        Greater
    );
    assert_eq!(
        v.range_cmp(&E::RangeExcl(B::Patch(1, 2, 3), B::Patch(1, 2, 4))),
        Equal
    );
    assert_eq!(
        v.range_cmp(&E::RangeExcl(B::Patch(1, 2, 4), B::Patch(3, 0, 0))),
        Less
    );

    assert_eq!(v.range_cmp(&E::RangeIncl(B::Major(0), B::Major(0))), Greater);
    assert_eq!(v.range_cmp(&E::RangeIncl(B::Major(1), B::Major(1))), Equal);
    assert_eq!(v.range_cmp(&E::RangeIncl(B::Major(2), B::Major(2))), Less);

    assert_eq!(
        v.range_cmp(&E::RangeIncl(B::Minor(0, 0), B::Minor(1, 1))),
        Greater
    );
    assert_eq!(
        v.range_cmp(&E::RangeIncl(B::Minor(1, 2), B::Minor(1, 2))),
        Equal
    );
    assert_eq!(
        v.range_cmp(&E::RangeIncl(B::Minor(1, 3), B::Minor(1, MAX_VERNUM))),
        Less
    );

    assert_eq!(
        v.range_cmp(&E::RangeIncl(B::Patch(0, 0, 0), B::Patch(1, 2, 2))),
        Greater
    );
    assert_eq!(
        v.range_cmp(&E::RangeIncl(B::Patch(1, 2, 3), B::Patch(1, 2, 3))),
        Equal
    );
    assert_eq!(
        v.range_cmp(&E::RangeIncl(
            B::Patch(1, 2, 4),
            B::Patch(1, MAX_VERNUM, MAX_VERNUM)
        )),
        Less
    );

    assert_eq!(v.range_cmp(&E::UpToExcl(B::Major(1))), Greater);
    assert_eq!(v.range_cmp(&E::UpToExcl(B::Major(2))), Equal);

    assert_eq!(v.range_cmp(&E::UpToExcl(B::Minor(1, 2))), Greater);
    assert_eq!(v.range_cmp(&E::UpToExcl(B::Minor(1, 3))), Equal);

    assert_eq!(v.range_cmp(&E::UpToExcl(B::Patch(1, 2, 3))), Greater);
    assert_eq!(v.range_cmp(&E::UpToExcl(B::Patch(1, 2, 4))), Equal);

    assert_eq!(v.range_cmp(&E::UpToIncl(B::Major(0))), Greater);
    assert_eq!(v.range_cmp(&E::UpToIncl(B::Major(1))), Equal);

    assert_eq!(v.range_cmp(&E::UpToIncl(B::Minor(1, 1))), Greater);
    assert_eq!(v.range_cmp(&E::UpToIncl(B::Minor(1, 2))), Equal);

    assert_eq!(v.range_cmp(&E::UpToIncl(B::Patch(1, 2, 2))), Greater);
    assert_eq!(v.range_cmp(&E::UpToIncl(B::Patch(1, 2, 3))), Equal);

    assert_eq!(v.range_cmp(&E::From(B::Major(1))), Equal);
    assert_eq!(v.range_cmp(&E::From(B::Major(2))), Less);

    assert_eq!(v.range_cmp(&E::From(B::Minor(1, 2))), Equal);
    assert_eq!(v.range_cmp(&E::From(B::Minor(1, 3))), Less);

    assert_eq!(v.range_cmp(&E::From(B::Patch(1, 2, 3))), Equal);
    assert_eq!(v.range_cmp(&E::From(B::Patch(1, 2, 4))), Less);
}

#[test]
fn version_parsing_accepts_plus_and_leading_zeros() {
    assert!(matches!(v("+1.02.3"), Version(1, 2, 3)));
    assert!("1.65536.0".parse::<Version>().is_err());
    assert!("1.-2.3".parse::<Version>().is_err());
    assert!("1.+.3".parse::<Version>().is_err());
}

#[test]
fn version_block_parsing_strictly() {
    assert!("1.2.".parse::<B>().is_err());
    assert!("1.2.3.4".parse::<B>().is_err());
    assert!("".parse::<B>().is_err());
    assert!(matches!(b("65535"), B::Major(65535)));
}

#[test]
fn expression_parsing_strictly() {
    assert!("..".parse::<E>().is_err());
    assert!("1...4".parse::<E>().is_err());
    assert!("1..=".parse::<E>().is_err());
    assert!(matches!(e("..=0"), E::UpToIncl(B::Major(0))));
}

#[test]
fn sound_ranges_and_displayed_versions_round_trip() {
    assert!(E::RangeExcl(B::Major(1), B::Major(4)).sound());
    assert!(!E::RangeExcl(B::Major(4), B::Major(1)).sound());
    assert!(B::Minor(1, 2).sound());
    let x = Version(12, 0, 7);
    assert_eq!(x.to_string().parse::<Version>(), Ok(x));
    let blk = B::Minor(3, 40);
    assert_eq!(blk.to_string().parse::<B>(), Ok(blk));
    // a version lies inside its own block and below the next break
    assert_eq!(x.range_cmp(&B::Major(12)), Ordering::Equal);
    assert_eq!(x.range_cmp(&x.next_break()), Ordering::Less);
}

#[test]
fn range_ends_that_do_not_fit_are_told_apart() {
    assert!(E::UpToIncl(B::Major(3)).stop_fits());
    assert!(!E::UpToIncl(B::Major(65535)).stop_fits());
    assert!(!E::RangeIncl(B::Major(1), B::Minor(2, 65535)).stop_fits());
    assert!(E::RangeExcl(B::Major(1), B::Major(65535)).stop_fits());
    assert!(!E::MinSemVer(B::Patch(0, 65535, 1)).stop_fits());
    assert!(E::MinSemVer(B::Patch(1, 65535, 1)).stop_fits());
    assert!(!E::MinSemVer(B::Major(65535)).stop_fits());
    assert!(E::From(B::Major(65535)).stop_fits());
}

#[test]
fn displayed_expressions_read_back_as_the_same_range() {
    let cases = vec![
        E::RangeExcl(B::Minor(1, 2), B::Major(3)),
        E::RangeIncl(B::Major(0), B::Patch(0, 9, 65535)),
        E::From(B::Patch(10, 0, 1)),
        E::UpToExcl(B::Minor(4, 5)),
        E::UpToIncl(B::Major(7)),
    ];
    for x in cases {
        assert_eq!(x.to_string().parse::<E>(), Ok(x));
    }
    let min = E::MinSemVer(B::Minor(0, 3));
    let back = min.to_string().parse::<E>().unwrap();
    assert_eq!(back, E::RangeExcl(B::Minor(0, 3), B::Minor(0, 4)));
    assert_eq!(back.start(), min.start());
    assert_eq!(back.stop(), min.stop());
    let major = E::MinSemVer(B::Patch(2, 7, 1));
    assert_eq!(
        major.to_string().parse::<E>(),
        Ok(E::RangeExcl(B::Patch(2, 7, 1), B::Major(3)))
    );
}

#[test]
fn displayed_versions_and_blocks_read_back() {
    for x in [Version(0, 0, 0), Version(65535, 65535, 65535), Version(1, 20, 300)] {
        assert_eq!(x.to_string().parse::<Version>(), Ok(x));
    }
    for blk in [B::Major(0), B::Minor(65535, 0), B::Patch(9, 99, 999)] {
        assert_eq!(blk.to_string().parse::<B>(), Ok(blk));
    }
}

#[test]
fn a_greater_version_is_never_placed_lower() {
    let rank = |o: Ordering| match o {
        Less => 0,
        Equal => 1,
        Greater => 2,
    };
    let ranges = [
        E::MinSemVer(B::Minor(1, 2)),
        E::RangeExcl(B::Patch(1, 2, 5), B::Major(2)),
        E::From(B::Major(1)),
        E::UpToExcl(B::Minor(1, 3)),
    ];
    let versions = [Version(0, 9, 9), Version(1, 2, 3), Version(1, 2, 5), Version(1, 3, 0), Version(2, 0, 0)];
    for r in ranges.iter() {
        for w in versions.windows(2) {
            assert!(rank(w[0].range_cmp(r)) <= rank(w[1].range_cmp(r)));
        }
    }
    let r = E::RangeExcl(B::Patch(1, 2, 5), B::Major(2));
    assert_eq!(Version(1, 2, 3).range_cmp(&r), Less);
    assert_eq!(Version(1, 3, 0).range_cmp(&r), Equal);
    assert_eq!(Version(2, 0, 0).range_cmp(&r), Greater);
}
