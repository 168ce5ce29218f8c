//! The modules that one source file names: its imports, re-exports, `require` calls and
//! dynamic imports.
pub use crate::source::{ImportSite, ModuleContext};
use crate::source::{
    file_findings, finding_views, read_source, source_failure, Finding, FindingView, SiteView,
    SourceError,
};
use vstd::prelude::*;

verus! {

/// Everything that one source file names.
#[derive(Debug)]
pub struct ParsedImports {
    pub sites: Vec<ImportSite>,
    /// How many dynamic imports name no module by a string literal.
    pub unresolved_dynamic_imports: usize,
}

/// Sites as mathematical values.
pub open spec fn site_views(v: Seq<ImportSite>) -> Seq<SiteView> {
    v.map_values(|s: ImportSite| s@)
}

/// The sites among some findings.
pub open spec fn sites_among(list: Seq<FindingView>) -> Seq<SiteView>
    decreases list.len(),
{
    if list.len() == 0 {
        Seq::empty()
    } else {
        let before = sites_among(list.drop_last());
        match list.last() {
            FindingView::Site(s) => before.push(s),
            _ => before,
        }
    }
}

/// How many dynamic imports are among some findings.
pub open spec fn dynamic_among(list: Seq<FindingView>) -> nat
    decreases list.len(),
{
    if list.len() == 0 {
        0
    } else {
        dynamic_among(list.drop_last()) + if list.last() is Dynamic {
            1nat
        } else {
            0
        }
    }
}

/// Why the imports of a file cannot be told.
#[derive(Debug)]
pub struct ParseError {
    pub file: String,
    pub cause: SourceError,
}

impl ParseError {
    /// What the error says.
    pub open spec fn text(&self) -> Seq<char> {
        match self.cause {
            SourceError::Unrecognized { detail } => self.file@
                + ": unrecognized source extension: "@ + detail@,
            SourceError::Fatal { detail } => self.file@
                + ": failed to parse (fatal syntax error): "@ + detail@,
            SourceError::NoTree { detail } => self.file@ + ": no syntax tree: "@ + detail@,
        }
    }

    /// What the error says.
    pub fn message(&self) -> (r: String)
        ensures
            r@ == self.text(),
    {
        let mut out = self.file.clone();
        match &self.cause {
            SourceError::Unrecognized { detail } => {
                out.append(": unrecognized source extension: ");
                out.append(detail.as_str());
            },
            SourceError::Fatal { detail } => {
                out.append(": failed to parse (fatal syntax error): ");
                out.append(detail.as_str());
            },
            SourceError::NoTree { detail } => {
                out.append(": no syntax tree: ");
                out.append(detail.as_str());
            },
        }
        out
    }
}

/// Tells the sites and the dynamic imports apart among what a file holds.
pub fn imports_among(list: Vec<Finding>) -> (r: ParsedImports)
    ensures
        site_views(r.sites@) == sites_among(finding_views(list@)),
        r.unresolved_dynamic_imports == dynamic_among(finding_views(list@)),
{
    let ghost all = finding_views(list@);
    let mut list = list;
    let mut sites: Vec<ImportSite> = Vec::new();
    let mut dynamic: usize = 0;
    let ghost mut n: int = 0;
    let total = list.len();
    assert(site_views(sites@) =~= sites_among(all.take(0)));
    while list.len() > 0
        invariant
            0 <= n <= all.len(),
            all.len() == total,
            n + list@.len() == all.len(),
            finding_views(list@) == all.skip(n),
            site_views(sites@) == sites_among(all.take(n)),
            dynamic == dynamic_among(all.take(n)),
            dynamic <= n,
        decreases list.len(),
    {
        let ghost rest = finding_views(list@);
        let ghost before = site_views(sites@);
        let x = list.remove(0);
        proof {
            assert(rest[0] == x@);
            assert(all[n] == all.skip(n)[0]);
            assert(finding_views(list@) =~= rest.drop_first());
            assert(rest.drop_first() =~= all.skip(n + 1));
            assert(all.take(n + 1).drop_last() =~= all.take(n));
        }
        match x {
            Finding::Site(s) => {
                sites.push(s);
                assert(site_views(sites@) =~= before.push(s@));
            },
            Finding::Dynamic => {
                dynamic = dynamic + 1;
            },
            _ => {},
        }
        proof {
            n = n + 1;
        }
    }
    assert(all.take(n) =~= all);
    ParsedImports { sites, unresolved_dynamic_imports: dynamic }
}

/// Parses the text of the file `path` and finds every module that it names. A text with
/// syntax errors that leave a tree still counts; one that leaves none is an error, and so is a
/// file whose extension is not one of a source file.
pub fn parse_file_imports(path: &str, source_text: &str) -> (r: Result<ParsedImports, ParseError>)
    ensures
        match r {
            Ok(p) => match file_findings(path@, source_text@) {
                Some(list) => site_views(p.sites@) == sites_among(list)
                    && p.unresolved_dynamic_imports == dynamic_among(list),
                None => false,
            },
            Err(e) => file_findings(path@, source_text@) is None && e.file@ == path@ && e.cause@
                == source_failure(path@, source_text@),
        },
{
    match read_source(path, source_text) {
        Ok(list) => Ok(imports_among(list)),
        Err(cause) => Err(ParseError { file: path.to_owned(), cause }),
    }
}

} // verus!
