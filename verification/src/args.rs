//! The run configuration, reduced to plain values: output flags, requested
//! environments, explicit `KEY=VALUE` overrides, the template file and the
//! timeout. Parsing the command line and reading the process environment or
//! the disk happen outside; their results are handed in as values.

use vstd::prelude::*;

use crate::prop::{line_split, parsed_properties, prop_views, ParsePropertyError, Property,
    PropertyModel, Source};

verus! {

/// The mathematical content of `Args`.
pub ghost struct ArgsModel {
    pub verbosity_level: u8,
    pub print_dbg: bool,
    pub enable_colors: bool,
    pub disable_colors: bool,
    pub headers: bool,
    pub request: bool,
    pub ask: bool,
    pub interactive: bool,
    pub trim: bool,
    pub env: Seq<Seq<char>>,
    pub arg_vars: Seq<PropertyModel>,
    pub timeout: usize,
    pub file: Seq<char>,
}

/// The run configuration.
#[derive(Debug)]
pub struct Args {
    /// Verbosity level, 0 to 5.
    pub verbosity_level: u8,
    /// Print build information and stop.
    pub print_dbg: bool,
    enable_colors: bool,
    disable_colors: bool,
    headers: bool,
    request: bool,
    ask: bool,
    interactive: bool,
    /// Trim user input of surrounding whitespace.
    pub trim: bool,
    env: Vec<String>,
    arg_vars: Vec<Property>,
    timeout: usize,
    file: String,
}

impl View for Args {
    type V = ArgsModel;

    closed spec fn view(&self) -> ArgsModel {
        ArgsModel {
            verbosity_level: self.verbosity_level,
            print_dbg: self.print_dbg,
            enable_colors: self.enable_colors,
            disable_colors: self.disable_colors,
            headers: self.headers,
            request: self.request,
            ask: self.ask,
            interactive: self.interactive,
            trim: self.trim,
            env: self.env@.map_values(|e: String| e@),
            arg_vars: prop_views(self.arg_vars@),
            timeout: self.timeout,
            file: self.file@,
        }
    }
}

impl Args {
    /// Builds the configuration from its parts.
    pub fn new(
        verbosity_level: u8,
        print_dbg: bool,
        enable_colors: bool,
        disable_colors: bool,
        headers: bool,
        request: bool,
        ask: bool,
        interactive: bool,
        trim: bool,
        env: Vec<String>,
        arg_vars: Vec<Property>,
        timeout: usize,
        file: String,
    ) -> (r: Args)
        ensures
            r@ == (ArgsModel {
                verbosity_level,
                print_dbg,
                enable_colors,
                disable_colors,
                headers,
                request,
                ask,
                interactive,
                trim,
                env: env@.map_values(|e: String| e@),
                arg_vars: prop_views(arg_vars@),
                timeout,
                file: file@,
            }),
    {
        Args {
            verbosity_level,
            print_dbg,
            enable_colors,
            disable_colors,
            headers,
            request,
            ask,
            interactive,
            trim,
            env,
            arg_vars,
            timeout,
            file,
        }
    }

    /// The template file path, as written on the command line.
    pub fn file(&self) -> (r: &str)
        ensures
            r@ == self@.file,
    {
        self.file.as_str()
    }

    /// The request timeout in seconds.
    pub fn timeout(&self) -> (r: u64)
        ensures
            r == self@.timeout as u64,
    {
        self.timeout as u64
    }

    /// Whether the request is printed before sending: asked for explicitly,
    /// or implied by confirmation.
    pub fn print_request(&self) -> (r: bool)
        ensures
            r == (self@.request || self@.ask || self@.interactive),
    {
        self.request || self.ask()
    }

    /// Whether headers are printed: asked for explicitly, or implied by
    /// confirmation.
    pub fn print_headers(&self) -> (r: bool)
        ensures
            r == (self@.headers || self@.ask || self@.interactive),
    {
        self.headers || self.ask()
    }

    /// Whether the run asks for confirmation before sending: asked for
    /// explicitly, or implied by interactive mode.
    pub fn ask(&self) -> (r: bool)
        ensures
            r == (self@.ask || self@.interactive),
    {
        self.ask || self.interactive()
    }

    /// Whether missing template values are asked of the operator instead of
    /// failing.
    pub fn interactive(&self) -> (r: bool)
        ensures
            r == self@.interactive,
    {
        self.interactive
    }

    /// The requested environment names.
    pub fn env_names(&self) -> (r: &Vec<String>)
        ensures
            r@.map_values(|e: String| e@) == self@.env,
    {
        &self.env
    }

    /// Tags an inherited environment snapshot: every pair becomes a property
    /// under the `EnvVar` priority.
    pub fn read_sys_envs(sys_envs: &Vec<(String, String)>) -> (r: Vec<Property>)
        ensures
            prop_views(r@) == sys_envs@.map_values(
                |p: (String, String)|
                    (PropertyModel { key: p.0@, value: p.1@, prio: Source::EnvVar }),
            ),
    {
        let ghost mapped = sys_envs@.map_values(
            |p: (String, String)| (PropertyModel { key: p.0@, value: p.1@, prio: Source::EnvVar }),
        );
        let mut out: Vec<Property> = Vec::new();
        let mut i: usize = 0;
        while i < sys_envs.len()
            invariant
                mapped == sys_envs@.map_values(
                    |p: (String, String)|
                        (PropertyModel { key: p.0@, value: p.1@, prio: Source::EnvVar }),
                ),
            i <= sys_envs@.len(),
            prop_views(out@) =~= mapped.take(i as int),
            decreases sys_envs@.len() - i,
        {
            let key = sys_envs[i].0.clone();
            let value = sys_envs[i].1.clone();
            match Property::new(key, value, Source::EnvVar) {
                Ok(p) => {
                    let ghost prev = out@;
                    out.push(p);
                    proof {
                        assert(prop_views(out@) =~= prop_views(prev).push(p@));
                        assert(prop_views(out@) =~= mapped.take(i + 1));
                    }
                },
                Err(_) => {
                    proof {
                        assert(false);
                    }
                },
            }
            i = i + 1;
        }
        proof {
            assert(prop_views(out@) =~= mapped);
        }
        out
    }

    /// What reading a list of variable files yields: each file's properties
    /// under its depth's priority, in order, or the first malformed line.
    pub open spec fn parsed_files(files: Seq<(usize, Seq<char>)>) -> Result<
        Seq<PropertyModel>,
        Seq<char>,
    >
        decreases files.len(),
    {
        if files.len() == 0 {
            Ok(Seq::empty())
        } else {
            match parsed_properties(line_split(files[0].1), Source::File(files[0].0)) {
                Ok(ps) => match Self::parsed_files(files.drop_first()) {
                    Ok(rest) => Ok(ps + rest),
                    Err(e) => Err(e),
                },
                Err(e) => Err(e),
            }
        }
    }

    /// Reads the discovered variable files' contents: each `(depth, content)`
    /// pair yields its properties under the `File(depth)` priority, in
    /// discovery order; the first malformed line aborts the whole phase.
    pub fn read_file_envs(files: &Vec<(usize, String)>) -> (r: Result<
        Vec<Property>,
        ParsePropertyError,
    >)
        ensures
            ({
                let fv = files@.map_values(|f: (usize, String)| (f.0, f.1@));
                match r {
                    Ok(props) => Self::parsed_files(fv) == Ok::<Seq<PropertyModel>, Seq<char>>(
                        prop_views(props@),
                    ),
                    Err(e) => e matches ParsePropertyError::Entry(line) && Self::parsed_files(fv)
                        == Err::<Seq<PropertyModel>, Seq<char>>(line@),
                }
            }),
    {
        let ghost fv = files@.map_values(|f: (usize, String)| (f.0, f.1@));
        let mut out: Vec<Property> = Vec::new();
        let mut i: usize = 0;
        proof {
            assert(fv.skip(0) =~= fv);
            if Self::parsed_files(fv) is Ok {
                assert(prop_views(out@) + Self::parsed_files(fv)->Ok_0 =~= Self::parsed_files(
                    fv,
                )->Ok_0);
            }
        }
        while i < files.len()
            invariant
                fv == files@.map_values(|f: (usize, String)| (f.0, f.1@)),
                i <= files@.len(),
                match Self::parsed_files(fv.skip(i as int)) {
                    Ok(rest) => Self::parsed_files(fv) == Ok::<Seq<PropertyModel>, Seq<char>>(
                        prop_views(out@) + rest,
                    ),
                    Err(e) => Self::parsed_files(fv) == Err::<Seq<PropertyModel>, Seq<char>>(e),
                },
            decreases files@.len() - i,
        {
            proof {
                assert(fv.skip(i as int)[0] == fv[i as int]);
                assert(fv.skip(i as int).drop_first() =~= fv.skip(i + 1));
            }
            let depth = files[i].0;
            let prio = crate::prop::priority(depth);
            match crate::prop::parse_properties(files[i].1.as_str(), prio) {
                Ok(mut props) => {
                    let ghost prev = out@;
                    let ghost got = prop_views(props@);
                    out.append(&mut props);
                    proof {
                        assert(prop_views(out@) =~= prop_views(prev) + got);
                        let rest_now = Self::parsed_files(fv.skip(i + 1));
                        if rest_now is Ok {
                            assert((prop_views(prev) + got) + rest_now->Ok_0 =~= prop_views(prev)
                                + (got + rest_now->Ok_0));
                        }
                    }
                },
                Err(e) => {
                    return Err(e);
                },
            }
            i = i + 1;
        }
        proof {
            assert(fv.skip(i as int) =~= Seq::<(usize, Seq<char>)>::empty());
            assert(prop_views(out@) + Seq::<PropertyModel>::empty() =~= prop_views(out@));
        }
        Ok(out)
    }

    /// The explicit command-line overrides, each under the `Arg` priority.
    pub fn read_arg_vars(&self) -> (r: Vec<Property>)
        ensures
            prop_views(r@) == self@.arg_vars.map_values(
                |p: PropertyModel| (PropertyModel { key: p.key, value: p.value, prio: Source::Arg }),
            ),
    {
        let ghost mapped = self@.arg_vars.map_values(
            |p: PropertyModel| (PropertyModel { key: p.key, value: p.value, prio: Source::Arg }),
        );
        let mut out: Vec<Property> = Vec::new();
        let mut i: usize = 0;
        while i < self.arg_vars.len()
            invariant
                mapped == self@.arg_vars.map_values(
                    |p: PropertyModel|
                        (PropertyModel { key: p.key, value: p.value, prio: Source::Arg }),
                ),
                self@.arg_vars == prop_views(self.arg_vars@),
                i <= self.arg_vars@.len(),
                prop_views(out@) =~= mapped.take(i as int),
            decreases self.arg_vars@.len() - i,
        {
            let p = self.arg_vars[i].with_source(Source::Arg);
            let ghost prev = out@;
            out.push(p);
            proof {
                assert(prop_views(out@) =~= prop_views(prev).push(p@));
                assert(self@.arg_vars[i as int] == self.arg_vars@[i as int]@);
                assert(prop_views(out@) =~= mapped.take(i + 1));
            }
            i = i + 1;
        }
        proof {
            assert(prop_views(out@) =~= mapped);
        }
        out
    }

    /// Gathers the properties of every source, in merge order: the inherited
    /// environment snapshot, then the file properties, then the explicit
    /// overrides.
    pub fn env(&self, sys_envs: &Vec<(String, String)>, file_envs: Vec<Property>) -> (r: Vec<
        Property,
    >)
        ensures
            prop_views(r@) == Args::read_sys_envs_model(sys_envs@) + prop_views(file_envs@)
                + self@.arg_vars.map_values(
                |p: PropertyModel| (PropertyModel { key: p.key, value: p.value, prio: Source::Arg }),
            ),
    {
        let mut props: Vec<Property> = Args::read_sys_envs(sys_envs);
        let ghost sys = prop_views(props@);
        let mut files = file_envs;
        let ghost filed = prop_views(files@);
        props.append(&mut files);
        proof {
            assert(prop_views(props@) =~= sys + filed);
        }
        let mut args = self.read_arg_vars();
        let ghost tagged = prop_views(args@);
        props.append(&mut args);
        proof {
            assert(prop_views(props@) =~= (sys + filed) + tagged);
            assert((sys + filed) + tagged =~= sys + filed + tagged);
        }
        props
    }

    /// The model of a tagged environment snapshot.
    pub open spec fn read_sys_envs_model(sys_envs: Seq<(String, String)>) -> Seq<PropertyModel> {
        sys_envs.map_values(
            |p: (String, String)| (PropertyModel { key: p.0@, value: p.1@, prio: Source::EnvVar }),
        )
    }
}

} // verus!
