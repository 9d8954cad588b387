//! Data model: segment classifications, route records, manifests and the
//! state produced by resolving a request against a manifest.

use vstd::prelude::*;

verus! {

/// Classification of one route-path segment.
#[derive(Clone, Copy, Debug, PartialEq, Eq, Structural)]
pub enum SegmentType {
    Static,
    Dynamic,
    CatchAll,
    OptionalCatchAll,
}

/// One classified segment of a route path, in notation form
/// (`:name`, `*name`, `*name?`, or literal text).
#[derive(Clone, Debug)]
pub struct ParsedSegment {
    pub segment_type: SegmentType,
    pub param_name: Option<String>,
    pub raw: String,
}

/// Mathematical view of a `ParsedSegment`.
#[verifier::ext_equal]
pub struct SegView {
    pub segment_type: SegmentType,
    pub param_name: Option<Seq<char>>,
    pub raw: Seq<char>,
}

impl View for ParsedSegment {
    type V = SegView;

    open spec fn view(&self) -> SegView {
        SegView {
            segment_type: self.segment_type,
            param_name: match self.param_name {
                Some(ref s) => Some(s@),
                None => None,
            },
            raw: self.raw@,
        }
    }
}

/// One compiled route: the canonical route path, its matcher source,
/// the parameter names in capture order, its specificity score, and the
/// page file it came from.
#[derive(Clone, Debug)]
pub struct RouteRecord {
    pub path: String,
    pub regex: String,
    pub param_names: Vec<String>,
    pub score: i32,
    pub file_path: String,
}

/// Mathematical view of a `RouteRecord`.
#[verifier::ext_equal]
pub struct RecordView {
    pub path: Seq<char>,
    pub regex: Seq<char>,
    pub param_names: Seq<Seq<char>>,
    pub score: int,
    pub file_path: Seq<char>,
}

impl View for RouteRecord {
    type V = RecordView;

    open spec fn view(&self) -> RecordView {
        RecordView {
            path: self.path@,
            regex: self.regex@,
            param_names: self.param_names@.map_values(|s: String| s@),
            score: self.score as int,
            file_path: self.file_path@,
        }
    }
}

/// The complete, priority-ordered set of compiled routes for a page tree.
#[derive(Clone, Debug)]
pub struct RouteManifest {
    pub routes: Vec<RouteRecord>,
    pub generated_at: i64,
}

/// Mathematical view of a `RouteManifest`.
#[verifier::ext_equal]
pub struct ManifestView {
    pub routes: Seq<RecordView>,
    pub generated_at: int,
}

impl View for RouteManifest {
    type V = ManifestView;

    open spec fn view(&self) -> ManifestView {
        ManifestView {
            routes: self.routes@.map_values(|r: RouteRecord| r@),
            generated_at: self.generated_at as int,
        }
    }
}

/// Result of resolving a request target: the pathname, the bound path
/// parameters, the parsed query values, and the route that matched.
/// `params` and `query` are association lists with unique keys.
#[derive(Clone, Debug)]
pub struct RouteState {
    pub path: String,
    pub params: Vec<(String, String)>,
    pub query: Vec<(String, String)>,
    pub matched: Option<RouteRecord>,
}

/// Mathematical view of a `RouteState`.
#[verifier::ext_equal]
pub struct StateView {
    pub path: Seq<char>,
    pub params: Seq<(Seq<char>, Seq<char>)>,
    pub query: Seq<(Seq<char>, Seq<char>)>,
    pub matched: Option<RecordView>,
}

impl View for RouteState {
    type V = StateView;

    open spec fn view(&self) -> StateView {
        StateView {
            path: self.path@,
            params: self.params@.map_values(|p: (String, String)| (p.0@, p.1@)),
            query: self.query@.map_values(|p: (String, String)| (p.0@, p.1@)),
            matched: match self.matched {
                Some(ref r) => Some(r@),
                None => None,
            },
        }
    }
}

/// View of a vector of route records.
pub open spec fn records_view(rs: Seq<RouteRecord>) -> Seq<RecordView> {
    rs.map_values(|r: RouteRecord| r@)
}

/// A stored route's matcher source was not in the compiled-pattern grammar;
/// resolution is aborted and the offending source is reported.
#[derive(Clone, Debug)]
pub struct PatternError {
    pub pattern: String,
}

impl View for PatternError {
    type V = Seq<char>;

    open spec fn view(&self) -> Seq<char> {
        self.pattern@
    }
}

} // verus!
