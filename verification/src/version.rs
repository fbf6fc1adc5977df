//! Semantic versions, read and ordered by the `semver` crate.

use crate::text::{
    compare_numbers, compare_text, decimal_text, lex_order, number_order, push_decimal, text_eq,
    Order,
};
use semver::{BuildMetadata, Prerelease, Version};
use std::cmp::Ordering;
use vstd::prelude::*;
use vstd::string::StringExecFns;

verus! {

/// A semantic version: three numbers, a pre-release tag and build metadata;
/// either text is empty where the version has none.
#[derive(Debug)]
pub struct SemVer {
    pub major: u64,
    pub minor: u64,
    pub patch: u64,
    pub pre: String,
    pub build: String,
}

/// What a `SemVer` holds.
pub struct SemVerView {
    pub major: u64,
    pub minor: u64,
    pub patch: u64,
    pub pre: Seq<char>,
    pub build: Seq<char>,
}

impl View for SemVer {
    type V = SemVerView;

    open spec fn view(&self) -> SemVerView {
        SemVerView {
            major: self.major,
            minor: self.minor,
            patch: self.patch,
            pre: self.pre@,
            build: self.build@,
        }
    }
}

/// The fields of the version that `semver::Version::parse` reads from
/// `text`, as (major, minor, patch, pre-release, build metadata); `None`
/// where it reports an error.
pub uninterp spec fn semver_parsed(text: Seq<char>) -> Option<(u64, u64, u64, Seq<char>, Seq<char>)>;

/// How `semver::Prerelease` orders the pre-release tags `a` and `b`; `None`
/// where `Prerelease::new` refuses one of them.
pub uninterp spec fn prerelease_ordered(a: Seq<char>, b: Seq<char>) -> Option<Order>;

/// How `semver::BuildMetadata` orders the build metadata `a` and `b`; `None`
/// where `BuildMetadata::new` refuses one of them.
pub uninterp spec fn build_ordered(a: Seq<char>, b: Seq<char>) -> Option<Order>;

/// Calls `semver::Version::parse(text)` and copies out the five fields of the
/// version it returns. Which fields come back is taken on trust.
#[verifier::external_body]
pub(crate) fn parse_version(text: &str) -> (r: Option<SemVer>)
    ensures
        match r {
            Some(v) => semver_parsed(text@) == Some(
                (v.major, v.minor, v.patch, v.pre@, v.build@),
            ),
            None => semver_parsed(text@) is None,
        },
{
    match Version::parse(text) {
        Ok(v) => Some(
            SemVer {
                major: v.major,
                minor: v.minor,
                patch: v.patch,
                pre: v.pre.as_str().to_string(),
                build: v.build.as_str().to_string(),
            },
        ),
        Err(_) => None,
    }
}

/// Reads both tags with `semver::Prerelease::new` and compares them with that
/// type's `Ord`. The outcome is taken on trust; it is `None` where either tag
/// is refused.
#[verifier::external_body]
pub(crate) fn order_prerelease(a: &str, b: &str) -> (r: Option<Order>)
    ensures
        r == prerelease_ordered(a@, b@),
{
    match (Prerelease::new(a), Prerelease::new(b)) {
        (Ok(x), Ok(y)) => Some(
            match x.cmp(&y) {
                Ordering::Less => Order::Less,
                Ordering::Equal => Order::Equal,
                Ordering::Greater => Order::Greater,
            },
        ),
        _ => None,
    }
}

/// Reads both texts with `semver::BuildMetadata::new` and compares them with
/// that type's `Ord`. The outcome is taken on trust; it is `None` where
/// either text is refused.
#[verifier::external_body]
pub(crate) fn order_build(a: &str, b: &str) -> (r: Option<Order>)
    ensures
        r == build_ordered(a@, b@),
{
    match (BuildMetadata::new(a), BuildMetadata::new(b)) {
        (Ok(x), Ok(y)) => Some(
            match x.cmp(&y) {
                Ordering::Less => Order::Less,
                Ordering::Equal => Order::Equal,
                Ordering::Greater => Order::Greater,
            },
        ),
        _ => None,
    }
}

/// Order of two tags: equal texts are equal; otherwise as `ordered` says,
/// and in dictionary order where it says nothing or claims equality.
pub open spec fn tag_order(a: Seq<char>, b: Seq<char>, ordered: Option<Order>) -> Order {
    if a == b {
        Order::Equal
    } else {
        match ordered {
            Some(Order::Less) => Order::Less,
            Some(Order::Greater) => Order::Greater,
            _ => lex_order(a, b),
        }
    }
}

/// The version that a text reads as, where what the version shows reads as
/// the same version again.
pub open spec fn version_read(value: Seq<char>) -> Option<SemVerView> {
    match semver_parsed(value) {
        Some(p) => {
            let v = SemVerView { major: p.0, minor: p.1, patch: p.2, pre: p.3, build: p.4 };
            if semver_parsed(v.shown()) == Some(p) {
                Some(v)
            } else {
                None
            }
        },
        None => None,
    }
}

impl SemVerView {
    /// The version written out: the three numbers with dots between them,
    /// then `-` and the pre-release tag, then `+` and the build metadata,
    /// each only where it is not empty.
    pub open spec fn shown(self) -> Seq<char> {
        decimal_text(self.major as nat) + seq!['.'] + decimal_text(self.minor as nat) + seq!['.']
            + decimal_text(self.patch as nat) + (if self.pre.len() > 0 {
            seq!['-'] + self.pre
        } else {
            Seq::<char>::empty()
        }) + (if self.build.len() > 0 {
            seq!['+'] + self.build
        } else {
            Seq::<char>::empty()
        })
    }

    /// The order of two versions: by major, minor and patch number, then by
    /// pre-release tag, then by build metadata.
    pub open spec fn order(self, other: SemVerView) -> Order {
        if self.major != other.major {
            number_order(self.major, other.major)
        } else if self.minor != other.minor {
            number_order(self.minor, other.minor)
        } else if self.patch != other.patch {
            number_order(self.patch, other.patch)
        } else if self.pre != other.pre {
            tag_order(self.pre, other.pre, prerelease_ordered(self.pre, other.pre))
        } else {
            tag_order(self.build, other.build, build_ordered(self.build, other.build))
        }
    }

    /// Two versions are equal in order exactly when they hold the same fields.
    pub proof fn lemma_order_equal(self, other: SemVerView)
        ensures
            self.order(other) == Order::Equal <==> self == other,
    {
        crate::text::lemma_lex_order_equal(self.pre, other.pre);
        crate::text::lemma_lex_order_equal(self.build, other.build);
    }
}

impl SemVer {
    /// Reads a version from a text, and checks that what the version shows
    /// reads as the same version again.
    pub fn parse(value: &str) -> (r: Option<SemVer>)
        ensures
            match r {
                Some(v) => version_read(value@) == Some(v@),
                None => version_read(value@) is None,
            },
    {
        match parse_version(value) {
            Some(v) => {
                let text = v.show();
                match parse_version(text.as_str()) {
                    Some(back) => if back.major == v.major && back.minor == v.minor && back.patch
                        == v.patch && text_eq(back.pre.as_str(), v.pre.as_str()) && text_eq(
                        back.build.as_str(),
                        v.build.as_str(),
                    ) {
                        Some(v)
                    } else {
                        None
                    },
                    None => None,
                }
            },
            None => None,
        }
    }

    /// Writes the version out.
    pub fn show(&self) -> (r: String)
        ensures
            r@ == self@.shown(),
    {
        let mut out = String::new();
        push_decimal(self.major, &mut out);
        proof {
            reveal_strlit(".");
            reveal_strlit("-");
            reveal_strlit("+");
        }
        out.append(".");
        push_decimal(self.minor, &mut out);
        out.append(".");
        push_decimal(self.patch, &mut out);
        let ghost numbers = out@;
        if !self.pre.as_str().is_empty() {
            out.append("-");
            out.append(self.pre.as_str());
        }
        let ghost tagged = out@;
        if !self.build.as_str().is_empty() {
            out.append("+");
            out.append(self.build.as_str());
        }
        proof {
            assert(numbers =~= decimal_text(self.major as nat) + seq!['.'] + decimal_text(
                self.minor as nat,
            ) + seq!['.'] + decimal_text(self.patch as nat));
            assert(tagged =~= numbers + (if self.pre@.len() > 0 {
                seq!['-'] + self.pre@
            } else {
                Seq::<char>::empty()
            }));
            assert(out@ =~= self@.shown());
        }
        out
    }

    /// Compares two versions.
    pub fn compare(&self, other: &SemVer) -> (r: Order)
        ensures
            r == self@.order(other@),
    {
        if self.major != other.major {
            compare_numbers(self.major, other.major)
        } else if self.minor != other.minor {
            compare_numbers(self.minor, other.minor)
        } else if self.patch != other.patch {
            compare_numbers(self.patch, other.patch)
        } else if !text_eq(self.pre.as_str(), other.pre.as_str()) {
            match order_prerelease(self.pre.as_str(), other.pre.as_str()) {
                Some(Order::Less) => Order::Less,
                Some(Order::Greater) => Order::Greater,
                _ => compare_text(self.pre.as_str(), other.pre.as_str()),
            }
        } else if !text_eq(self.build.as_str(), other.build.as_str()) {
            match order_build(self.build.as_str(), other.build.as_str()) {
                Some(Order::Less) => Order::Less,
                Some(Order::Greater) => Order::Greater,
                _ => compare_text(self.build.as_str(), other.build.as_str()),
            }
        } else {
            Order::Equal
        }
    }
}

} // verus!
