//! What the messages of errors tell.
use crate::deps::DepsError;
use crate::driver::DriverError;
use crate::driver_install::{ExtractError, IntegrityError};
use crate::phantom::PhantomError;
use crate::target::ConfigError;
use crate::test_closure::OutsideWorkspace;
use crate::text_laws::stands_in;
use crate::tsconfig::TsconfigError;
use vstd::prelude::*;

verus! {

/// Whether `part` stands in `whole` right behind `head`.
spec fn follows(whole: Seq<char>, head: Seq<char>, part: Seq<char>) -> bool {
    head.len() + part.len() <= whole.len() && whole.subrange(
        head.len() as int,
        (head.len() + part.len()) as int,
    ) =~= part
}

proof fn lemma_follows(whole: Seq<char>, head: Seq<char>, part: Seq<char>)
    requires
        follows(whole, head, part),
    ensures
        stands_in(part, whole),
{
    let i: int = head.len() as int;
    assert(whole.subrange(i, i + part.len() as int) == part);
}

/// The error of a driver tells the driver or the field, and the value that is wrong.
pub proof fn driver_errors_tell_what_is_wrong(e: DriverError)
    ensures
        match e {
            DriverError::Config { driver, cause } => {
                &&& stands_in(driver@, e.text())
                &&& stands_in(cause.text(), e.text())
            },
            DriverError::Unsupported { driver, field, value, addr, expected } => {
                &&& stands_in(driver@, e.text())
                &&& stands_in(field@, e.text())
                &&& stands_in(value@, e.text())
                &&& stands_in(addr@, e.text())
                &&& stands_in(expected@, e.text())
            },
            DriverError::ScriptsNotAllowed { name, version } => {
                &&& stands_in(name@, e.text())
                &&& stands_in(version@, e.text())
            },
            DriverError::PathEscape { field, path } => {
                &&& stands_in(field@, e.text())
                &&& stands_in(path@, e.text())
            },
            DriverError::NothingToCheck { addr } => stands_in(addr@, e.text()),
        },
{
    let t = e.text();
    match e {
        DriverError::Config { driver, cause } => {
            lemma_follows(t, "parse "@, driver@);
            lemma_follows(t, "parse "@ + driver@ + " config: "@, cause.text());
        },
        DriverError::Unsupported { driver, field, value, addr, expected } => {
            lemma_follows(t, Seq::empty(), driver@);
            lemma_follows(t, driver@ + ": unsupported "@, field@);
            lemma_follows(t, driver@ + ": unsupported "@ + field@ + " `"@, value@);
            lemma_follows(
                t,
                driver@ + ": unsupported "@ + field@ + " `"@ + value@ + "` for "@,
                addr@,
            );
            lemma_follows(
                t,
                driver@ + ": unsupported "@ + field@ + " `"@ + value@ + "` for "@ + addr@
                    + ", expected "@,
                expected@,
            );
        },
        DriverError::ScriptsNotAllowed { name, version } => {
            lemma_follows(t, "js_install: `"@, name@);
            lemma_follows(t, "js_install: `"@ + name@ + "@"@, version@);
        },
        DriverError::PathEscape { field, path } => {
            lemma_follows(t, Seq::empty(), field@);
            lemma_follows(t, field@ + " `"@, path@);
        },
        DriverError::NothingToCheck { addr } => {
            lemma_follows(t, "js_typecheck: no tsconfig.json found for "@, addr@);
        },
    }
}

/// The error of a configuration tells the field.
pub proof fn field_errors_tell_the_field(e: ConfigError)
    ensures
        match e {
            ConfigError::Missing { key } => stands_in(key@, e.text()),
            ConfigError::WrongKind { key } => stands_in(key@, e.text()),
        },
{
    let t = e.text();
    match e {
        ConfigError::Missing { key } => {
            lemma_follows(t, "missing required field `"@, key@);
        },
        ConfigError::WrongKind { key } => {
            lemma_follows(t, "field `"@, key@);
        },
    }
}

/// The error of an undeclared import tells the package, the file, the specifier and what it leads to.
pub proof fn phantom_errors_tell_the_import(e: PhantomError)
    ensures
        match e {
            PhantomError::ThirdParty { pkg, file, specifier, name } => {
                &&& stands_in(pkg@, e.text())
                &&& stands_in(file@, e.text())
                &&& stands_in(specifier@, e.text())
                &&& stands_in(name@, e.text())
            },
            PhantomError::Workspace { pkg, file, specifier, owner, name } => {
                &&& stands_in(pkg@, e.text())
                &&& stands_in(file@, e.text())
                &&& stands_in(specifier@, e.text())
                &&& stands_in(owner@, e.text())
                &&& stands_in(name@, e.text())
            },
            PhantomError::UnnamedOwner { pkg, file, specifier, owner } => {
                &&& stands_in(pkg@, e.text())
                &&& stands_in(file@, e.text())
                &&& stands_in(specifier@, e.text())
                &&& stands_in(owner@, e.text())
            },
            PhantomError::Unclassified { pkg, file, specifier, resolved } => {
                &&& stands_in(pkg@, e.text())
                &&& stands_in(file@, e.text())
                &&& stands_in(specifier@, e.text())
                &&& stands_in(resolved@, e.text())
            },
            PhantomError::BareSpecifier { pkg, file, specifier, name } => {
                &&& stands_in(pkg@, e.text())
                &&& stands_in(file@, e.text())
                &&& stands_in(specifier@, e.text())
                &&& stands_in(name@, e.text())
            },
        },
{
    let t = e.text();
    match e {
        PhantomError::ThirdParty { pkg, file, specifier, name } => {
            lemma_follows(t, Seq::empty(), pkg@);
            lemma_follows(t, pkg@ + ": "@, file@);
            lemma_follows(t, pkg@ + ": "@ + file@ + " imports `"@, specifier@);
            lemma_follows(
                t,
                pkg@ + ": "@ + file@ + " imports `"@ + specifier@
                    + "`, which resolves to the third-party package `"@,
                name@,
            );
        },
        PhantomError::Workspace { pkg, file, specifier, owner, name } => {
            lemma_follows(t, Seq::empty(), pkg@);
            lemma_follows(t, pkg@ + ": "@, file@);
            lemma_follows(t, pkg@ + ": "@ + file@ + " imports `"@, specifier@);
            lemma_follows(
                t,
                pkg@ + ": "@ + file@ + " imports `"@ + specifier@
                    + "`, which resolves into workspace package `"@,
                owner@,
            );
            lemma_follows(
                t,
                pkg@ + ": "@ + file@ + " imports `"@ + specifier@
                    + "`, which resolves into workspace package `"@ + owner@
                    + "` (package name `"@,
                name@,
            );
        },
        PhantomError::UnnamedOwner { pkg, file, specifier, owner } => {
            lemma_follows(t, Seq::empty(), pkg@);
            lemma_follows(t, pkg@ + ": "@, file@);
            lemma_follows(t, pkg@ + ": "@ + file@ + " imports `"@, specifier@);
            lemma_follows(
                t,
                pkg@ + ": "@ + file@ + " imports `"@ + specifier@
                    + "`: reading package name of "@,
                owner@,
            );
        },
        PhantomError::Unclassified { pkg, file, specifier, resolved } => {
            lemma_follows(t, Seq::empty(), pkg@);
            lemma_follows(t, pkg@ + ": "@, file@);
            lemma_follows(t, pkg@ + ": "@ + file@ + " imports `"@, specifier@);
            lemma_follows(
                t,
                pkg@ + ": "@ + file@ + " imports `"@ + specifier@ + "`, which resolved to "@,
                resolved@,
            );
        },
        PhantomError::BareSpecifier { pkg, file, specifier, name } => {
            lemma_follows(t, Seq::empty(), pkg@);
            lemma_follows(t, pkg@ + ": "@, file@);
            lemma_follows(t, pkg@ + ": "@ + file@ + " imports `"@, specifier@);
            lemma_follows(
                t,
                pkg@ + ": "@ + file@ + " imports `"@ + specifier@
                    + "`, which names the third-party package `"@,
                name@,
            );
        },
    }
}

/// The error of a dependency tells the package and the name that it declares.
pub proof fn dependency_errors_tell_the_dependency(e: DepsError)
    ensures
        match e {
            DepsError::TooDeep { pkg, name, limit } => {
                &&& stands_in(name@, e.text())
                &&& stands_in(pkg@, e.text())
                &&& stands_in(limit.text(), e.text())
            },
            DepsError::WorkspaceLink { pkg, name } => {
                &&& stands_in(pkg@, e.text())
                &&& stands_in(name@, e.text())
            },
            DepsError::PlatformMismatch { pkg, name, resolved_name, version, .. } => {
                &&& stands_in(pkg@, e.text())
                &&& stands_in(name@, e.text())
                &&& stands_in(resolved_name@, e.text())
                &&& stands_in(version@, e.text())
            },
            DepsError::Unresolved { pkg, name, .. } => {
                &&& stands_in(pkg@, e.text())
                &&& stands_in(name@, e.text())
            },
        },
{
    let t = e.text();
    match e {
        DepsError::TooDeep { pkg, name, limit } => {
            lemma_follows(t, "resolving `"@, name@);
            lemma_follows(t, "resolving `"@ + name@ + "` declared by \""@, pkg@);
            lemma_follows(
                t,
                "resolving `"@ + name@ + "` declared by \""@ + pkg@ + "\": "@,
                limit.text(),
            );
        },
        DepsError::WorkspaceLink { pkg, name } => {
            lemma_follows(t, "\""@, pkg@);
            lemma_follows(t, "\""@ + pkg@ + "\": `"@, name@);
        },
        DepsError::PlatformMismatch { pkg, name, resolved_name, version, .. } => {
            lemma_follows(t, "\""@, pkg@);
            lemma_follows(t, "\""@ + pkg@ + "\": `"@, name@);
            lemma_follows(t, "\""@ + pkg@ + "\": `"@ + name@ + "` resolves to "@, resolved_name@);
            lemma_follows(
                t,
                "\""@ + pkg@ + "\": `"@ + name@ + "` resolves to "@ + resolved_name@ + "@"@,
                version@,
            );
        },
        DepsError::Unresolved { pkg, name, .. } => {
            lemma_follows(t, "\""@, pkg@);
            lemma_follows(t, "\""@ + pkg@ + "\": `"@, name@);
        },
    }
}

/// The error of a tsconfig tells the file, and the entry that is wrong.
pub proof fn tsconfig_errors_tell_the_file(e: TsconfigError)
    ensures
        match e {
            TsconfigError::Unreadable { path } => stands_in(path@, e.text()),
            TsconfigError::Comments { path, detail } => {
                &&& stands_in(path@, e.text())
                &&& stands_in(detail@, e.text())
            },
            TsconfigError::NotJson { path, detail } => {
                &&& stands_in(path@, e.text())
                &&& stands_in(detail@, e.text())
            },
            TsconfigError::ExtendsNotFound { specifier, from } => {
                &&& stands_in(specifier@, e.text())
                &&& stands_in(from@, e.text())
            },
            TsconfigError::ExtendsUnresolved { specifier, from, .. } => {
                &&& stands_in(specifier@, e.text())
                &&& stands_in(from@, e.text())
            },
            TsconfigError::OutsideWorkspace { path, root } => {
                &&& stands_in(path@, e.text())
                &&& stands_in(root@, e.text())
            },
            TsconfigError::Cycle { leaf } => stands_in(leaf@, e.text()),
            TsconfigError::Unscoped { tsconfig, pkg } => {
                &&& stands_in(tsconfig@, e.text())
                &&& stands_in(pkg@, e.text())
            },
            TsconfigError::NotConfined { tsconfig, entry, pkg } => {
                &&& stands_in(tsconfig@, e.text())
                &&& stands_in(entry@, e.text())
                &&& stands_in(pkg@, e.text())
            },
            TsconfigError::InvalidGlob { field, pattern } => {
                &&& stands_in(field@, e.text())
                &&& stands_in(pattern@, e.text())
            },
        },
{
    let t = e.text();
    match e {
        TsconfigError::Unreadable { path } => {
            lemma_follows(t, "reading tsconfig "@, path@);
        },
        TsconfigError::Comments { path, detail } => {
            lemma_follows(t, "stripping comments from "@, path@);
            lemma_follows(t, "stripping comments from "@ + path@ + ": "@, detail@);
        },
        TsconfigError::NotJson { path, detail } => {
            lemma_follows(t, "parsing tsconfig "@, path@);
            lemma_follows(t, "parsing tsconfig "@ + path@ + ": "@, detail@);
        },
        TsconfigError::ExtendsNotFound { specifier, from } => {
            lemma_follows(t, "tsconfig `extends: "@, specifier@);
            lemma_follows(t, "tsconfig `extends: "@ + specifier@ + "` (from "@, from@);
        },
        TsconfigError::ExtendsUnresolved { specifier, from, .. } => {
            lemma_follows(t, "tsconfig `extends: "@, specifier@);
            lemma_follows(t, "tsconfig `extends: "@ + specifier@ + "` (from "@, from@);
        },
        TsconfigError::OutsideWorkspace { path, root } => {
            lemma_follows(t, "tsconfig extends resolved to "@, path@);
            lemma_follows(
                t,
                "tsconfig extends resolved to "@ + path@
                    + " which is outside the workspace root "@,
                root@,
            );
        },
        TsconfigError::Cycle { leaf } => {
            lemma_follows(t, "tsconfig extends cycle detected while resolving "@, leaf@);
        },
        TsconfigError::Unscoped { tsconfig, pkg } => {
            lemma_follows(t, "js_typecheck: "@, tsconfig@);
            lemma_follows(
                t,
                "js_typecheck: "@ + tsconfig@ + " declares no `include`/`files`; scope it to "@,
                pkg@,
            );
        },
        TsconfigError::NotConfined { tsconfig, entry, pkg } => {
            lemma_follows(t, "js_typecheck: "@, tsconfig@);
            lemma_follows(
                t,
                "js_typecheck: "@ + tsconfig@ + " has the `include`/`files` entry "@,
                entry@,
            );
            lemma_follows(
                t,
                "js_typecheck: "@ + tsconfig@ + " has the `include`/`files` entry "@ + entry@
                    + ", which is not confined to "@,
                pkg@,
            );
        },
        TsconfigError::InvalidGlob { field, pattern } => {
            lemma_follows(t, "invalid "@, field@);
            lemma_follows(t, "invalid "@ + field@ + " glob "@, pattern@);
        },
    }
}

/// The error of a fetched package tells the hash that was expected and the one that it has.
pub proof fn integrity_errors_tell_the_hashes(e: IntegrityError)
    ensures
        match e {
            IntegrityError::Mismatch { algorithm, expected, got } => {
                &&& stands_in(algorithm@, e.text())
                &&& stands_in(expected@, e.text())
                &&& stands_in(got@, e.text())
            },
            IntegrityError::NoAlgorithm { integrity } => stands_in(integrity@, e.text()),
        },
{
    let t = e.text();
    match e {
        IntegrityError::Mismatch { algorithm, expected, got } => {
            lemma_follows(t, "integrity mismatch ("@, algorithm@);
            lemma_follows(t, "integrity mismatch ("@ + algorithm@ + "): expected "@, expected@);
            lemma_follows(
                t,
                "integrity mismatch ("@ + algorithm@ + "): expected "@ + expected@ + ", got "@,
                got@,
            );
        },
        IntegrityError::NoAlgorithm { integrity } => {
            lemma_follows(t, "no recognized integrity algorithm in "@, integrity@);
        },
    }
}

/// The error of an unpacked entry tells its path.
pub proof fn extraction_errors_tell_the_path(e: ExtractError)
    ensures
        match e {
            ExtractError::Escapes { entry } => stands_in(entry@, e.text()),
            ExtractError::Outside { dest, path } => {
                &&& stands_in(dest@, e.text())
                &&& stands_in(path@, e.text())
            },
            ExtractError::Unknown { path } => stands_in(path@, e.text()),
        },
{
    let t = e.text();
    match e {
        ExtractError::Escapes { entry } => {
            lemma_follows(t, "tarball entry "@, entry@);
        },
        ExtractError::Outside { dest, path } => {
            lemma_follows(t, "tarball entry escapes the extraction root "@, dest@);
            lemma_follows(t, "tarball entry escapes the extraction root "@ + dest@ + ": "@, path@);
        },
        ExtractError::Unknown { path } => {
            lemma_follows(t, "canonicalize "@, path@);
        },
    }
}

/// The error of a test whose closure leaves the workspace tells the import.
pub proof fn closure_errors_tell_the_import(e: OutsideWorkspace)
    ensures
        stands_in(e.file@, e.text()),
        stands_in(e.resolved@, e.text()),
        stands_in(e.root@, e.text()),
{
    let t = e.text();
    let middle = ", which resolved outside the workspace root "@;
    lemma_follows(t, "js_test: "@, e.file@);
    lemma_follows(t, "js_test: "@ + e.file@ + " imports from "@, e.resolved@);
    lemma_follows(t, "js_test: "@ + e.file@ + " imports from "@ + e.resolved@ + middle, e.root@);
}

} // verus!
