//! Documentation renderer driver support: the manifest of the ephemeral
//! build area, written for a dummy package whose sole dependency is the
//! target, and the rule that locates the rendered output, which must be
//! exactly one subdirectory holding an `index.html`. Creating the area and
//! invoking the renderer happen outside the library.

use vstd::prelude::*;

use crate::crate_discovery::{renderable_entry, DirEntryInfo};
use crate::error::ServerError;
use vstd::string::StringExecFns;

verus! {

/// A feature name in quotes.
pub open spec fn quoted_spec(f: Seq<char>) -> Seq<char> {
    "\""@ + f + "\""@
}

/// The quoted feature names, comma-separated.
pub open spec fn features_list_spec(fs: Seq<Seq<char>>) -> Seq<char>
    decreases fs.len(),
{
    if fs.len() == 0 {
        Seq::empty()
    } else if fs.len() == 1 {
        quoted_spec(fs[0])
    } else {
        features_list_spec(fs.drop_last()) + ", "@ + quoted_spec(fs.last())
    }
}

/// The manifest of the ephemeral build area: a dummy package whose sole
/// dependency is the target package with the given requirement and
/// features.
pub open spec fn manifest_spec(
    package: Seq<char>,
    version_req: Seq<char>,
    features: Seq<Seq<char>>,
) -> Seq<char> {
    "[package]\nname = \"docs_only\"\nversion = \"0.1.0\"\nedition = \"2021\"\n\n[dependencies]\n"@
        + package + " = { version = \""@ + version_req + "\", features = ["@ + features_list_spec(
        features,
    ) + "] }\n"@
}

/// Write the manifest text for the target package.
pub fn render_manifest(package: &str, version_req: &str, features: &Vec<String>) -> (r: String)
    ensures
        r@ == manifest_spec(package@, version_req@, features.deep_view()),
{
    let mut out = String::from_str(
        "[package]\nname = \"docs_only\"\nversion = \"0.1.0\"\nedition = \"2021\"\n\n[dependencies]\n",
    );
    out.append(package);
    out.append(" = { version = \"");
    out.append(version_req);
    out.append("\", features = [");
    let n = features.len();
    let mut i: usize = 0;
    let ghost fv = features.deep_view();
    let ghost base = out@;
    proof {
        assert(fv.take(0) =~= Seq::<Seq<char>>::empty());
        assert(fv.len() == n);
    }
    while i < n
        invariant
            i <= n,
            n == features@.len(),
            fv == features.deep_view(),
            fv.len() == n,
            out@ == base + features_list_spec(fv.take(i as int)),
        decreases n - i,
    {
        if i > 0 {
            out.append(", ");
        }
        out.append("\"");
        out.append(features[i].as_str());
        out.append("\"");
        proof {
            assert(fv.take(i + 1).drop_last() =~= fv.take(i as int));
            assert(fv.take(i + 1).last() == fv[i as int]);
            assert(fv[i as int] == features@[i as int]@);
            if i == 0 {
                assert(features_list_spec(fv.take(1)) == quoted_spec(fv[0]));
                assert(out@ =~= base + features_list_spec(fv.take(i + 1)));
            } else {
                assert(features_list_spec(fv.take(i + 1)) == features_list_spec(fv.take(i as int))
                    + ", "@ + quoted_spec(fv[i as int]));
                assert(out@ =~= base + features_list_spec(fv.take(i + 1)));
            }
        }
        i = i + 1;
    }
    proof {
        assert(fv.take(n as int) =~= fv);
    }
    out.append("] }\n");
    proof {
        assert(out@ =~= manifest_spec(package@, version_req@, features.deep_view()));
    }
    out
}

/// How many entries of the output area are rendered-documentation
/// directories.
pub open spec fn count_renderable(entries: Seq<DirEntryInfo>) -> int
    decreases entries.len(),
{
    if entries.len() == 0 {
        0
    } else {
        count_renderable(entries.drop_last()) + if renderable_entry(entries.last()) {
            1int
        } else {
            0int
        }
    }
}

/// Locate the rendered output: the one subdirectory of the output area
/// that holds an `index.html`. Zero or several candidates are ambiguous.
pub fn locate_render_output(entries: &Vec<DirEntryInfo>) -> (r: Result<String, ServerError>)
    ensures
        match r {
            Ok(name) => count_renderable(entries@) == 1 && exists|i: int|
                0 <= i < entries@.len() && renderable_entry(#[trigger] entries@[i]) && name@
                    == entries@[i].name@,
            Err(e) => e == ServerError::RenderOutputAmbiguous && count_renderable(entries@) != 1,
        },
{
    let n = entries.len();
    let mut count: usize = 0;
    let mut found: usize = 0;
    let mut i: usize = 0;
    proof {
        assert(entries@.take(0) =~= Seq::<DirEntryInfo>::empty());
    }
    while i < n
        invariant
            i <= n,
            n == entries@.len(),
            count <= i,
            count == count_renderable(entries@.take(i as int)),
            count > 0 ==> (found as int) < i && renderable_entry(entries@[found as int]),
        decreases n - i,
    {
        proof {
            assert(entries@.take(i + 1).drop_last() =~= entries@.take(i as int));
            assert(entries@.take(i + 1).last() == entries@[i as int]);
        }
        if entries[i].is_dir && entries[i].has_index {
            count = count + 1;
            found = i;
        }
        i = i + 1;
    }
    proof {
        assert(entries@.take(n as int) =~= entries@);
    }
    if count == 1 {
        Ok(entries[found].name.clone())
    } else {
        Err(ServerError::RenderOutputAmbiguous)
    }
}

} // verus!
