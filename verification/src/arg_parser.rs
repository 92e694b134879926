//! The settings a run works with, as plain values: the output directory,
//! the stylesheet locator, and the input paths.

use vstd::prelude::*;

verus! {

/// Parsed command-line settings.
pub struct ArgParser {
    dist_dir: String,
    stylesheet: String,
    input_paths: Vec<String>,
}

impl ArgParser {
    /// The output directory, as a value.
    pub closed spec fn spec_dist_dir(&self) -> Seq<char> {
        self.dist_dir@
    }

    /// The stylesheet locator, as a value.
    pub closed spec fn spec_stylesheet(&self) -> Seq<char> {
        self.stylesheet@
    }

    /// The input paths, as values.
    pub closed spec fn spec_input_paths(&self) -> Seq<Seq<char>> {
        self.input_paths.deep_view()
    }

    /// Carries already-parsed command-line values.
    pub fn new(dist_dir: String, stylesheet: String, input_paths: Vec<String>) -> (r: ArgParser)
        ensures
            r.spec_dist_dir() == dist_dir@,
            r.spec_stylesheet() == stylesheet@,
            r.spec_input_paths() == input_paths.deep_view(),
    {
        ArgParser { dist_dir, stylesheet, input_paths }
    }

    /// The output directory.
    pub fn dist_dir(&self) -> (r: &String)
        ensures
            r@ == self.spec_dist_dir(),
    {
        &self.dist_dir
    }

    /// The input paths, cloned for the caller.
    pub fn input_paths(&self) -> (r: Vec<String>)
        ensures
            r.deep_view() == self.spec_input_paths(),
    {
        let mut out: Vec<String> = Vec::new();
        let mut i: usize = 0;
        proof {
            assert(out.deep_view() =~= self.input_paths.deep_view().take(0));
        }
        while i < self.input_paths.len()
            invariant
                0 <= i <= self.input_paths.len(),
                out.deep_view() == self.input_paths.deep_view().take(i as int),
            decreases self.input_paths.len() - i,
        {
            let ghost dv = out.deep_view();
            let item = self.input_paths[i].clone();
            proof {
                assert(item@ == self.input_paths@[i as int]@);
            }
            out.push(item);
            proof {
                assert(out.deep_view() =~= dv.push(self.input_paths@[i as int]@));
                assert(self.input_paths.deep_view().take(i + 1) =~= dv.push(
                    self.input_paths@[i as int]@,
                ));
            }
            i += 1;
        }
        proof {
            assert(self.input_paths.deep_view().take(i as int) =~= self.input_paths.deep_view());
        }
        out
    }

    /// The stylesheet locator.
    pub fn stylesheet(&self) -> (r: &str)
        ensures
            r@ == self.spec_stylesheet(),
    {
        self.stylesheet.as_str()
    }
}

} // verus!
