use vstd::prelude::*;

verus! {

/// The resolved command-line options of one run: where the transaction
/// statement is read, where the capital-gains statement is written, where
/// the configuration lives, and whether the price cache is cleared first.
pub struct App {
    pub input_path: String,
    pub output_path: String,
    pub conf_path: String,
    pub clear_cache: bool,
}

impl App {
    /// Bundles already-resolved option values; parsing the command line is
    /// the binary's business, not this library's.
    pub fn new(input_path: String, output_path: String, conf_path: String, clear_cache: bool) -> (r:
        App)
        ensures
            r.input_path == input_path,
            r.output_path == output_path,
            r.conf_path == conf_path,
            r.clear_cache == clear_cache,
    {
        App { input_path, output_path, conf_path, clear_cache }
    }

    pub fn get_config_path(&self) -> (r: &str)
        ensures
            r@ == self.conf_path@,
    {
        self.conf_path.as_str()
    }

    pub fn get_input_path(&self) -> (r: &str)
        ensures
            r@ == self.input_path@,
    {
        self.input_path.as_str()
    }

    pub fn get_output_path(&self) -> (r: &str)
        ensures
            r@ == self.output_path@,
    {
        self.output_path.as_str()
    }

    pub fn get_clear_cache(&self) -> (r: bool)
        ensures
            r == self.clear_cache,
    {
        self.clear_cache
    }
}

} // verus!
