use vstd::prelude::*;

verus! {

/// `std::path::PathBuf`, the session directory of a configuration.
#[verifier::external_type_specification]
#[verifier::external_body]
pub struct ExPathBuf(std::path::PathBuf);

/// The Lua that loads amba's S2E plugin.
pub const CUSTOM_LUA_STRING: &'static str = "\nadd_plugin(\"AmbaPlugin\")\n";

/// The ASCII digit or lowercase letter for a nibble.
pub open spec fn hex_digit(d: u8) -> u8 {
    if d < 10 {
        (48 + d) as u8
    } else {
        (87 + d) as u8
    }
}

/// How `[u8]::escape_ascii` writes one byte: tab, return, newline,
/// backslash and both quotes as a backslash escape, other printable ASCII
/// as itself, anything else as `\x` and two lowercase hex digits.
pub open spec fn escape_byte(b: u8) -> Seq<u8> {
    if b == 9 {
        seq![92u8, 116u8]
    } else if b == 13 {
        seq![92u8, 114u8]
    } else if b == 10 {
        seq![92u8, 110u8]
    } else if b == 92 {
        seq![92u8, 92u8]
    } else if b == 39 {
        seq![92u8, 39u8]
    } else if b == 34 {
        seq![92u8, 34u8]
    } else if 0x20 <= b <= 0x7e {
        seq![b]
    } else {
        seq![92u8, 120u8, hex_digit(b / 16), hex_digit(b % 16)]
    }
}

/// The escapes of the bytes `raw`, one after the other.
pub open spec fn escaped(raw: Seq<u8>) -> Seq<u8>
    decreases raw.len(),
{
    if raw.len() == 0 {
        Seq::empty()
    } else {
        escaped(raw.drop_last()) + escape_byte(raw.last())
    }
}

/// The characters of ASCII bytes.
pub open spec fn ascii_chars(bytes: Seq<u8>) -> Seq<char> {
    bytes.map_values(|b: u8| b as char)
}

/// `String::from_utf8`: bytes that are all ASCII are valid UTF-8, each
/// the character of its code.
#[verifier::external_body]
fn string_from_ascii(bytes: Vec<u8>) -> (s: String)
    requires
        forall|i: int| 0 <= i < bytes@.len() ==> #[trigger] bytes@[i] < 128,
    ensures
        s@ == ascii_chars(bytes@),
{
    String::from_utf8(bytes).unwrap()
}

/// The bytes of a file name (an `OsStr`), escaped to printable ASCII as
/// `escape_ascii` escapes them.
pub fn os_str_to_escaped_ascii(raw: &[u8]) -> (s: String)
    ensures
        s@ == ascii_chars(escaped(raw@)),
{
    let mut out: Vec<u8> = Vec::new();
    let mut i: usize = 0;
    while i < raw.len()
        invariant
            0 <= i <= raw@.len(),
            out@ == escaped(raw@.take(i as int)),
            forall|j: int| 0 <= j < out@.len() ==> #[trigger] out@[j] < 128,
        decreases raw@.len() - i,
    {
        let b = raw[i];
        let ghost before = out@;
        if b == 9 {
            out.push(92);
            out.push(116);
        } else if b == 13 {
            out.push(92);
            out.push(114);
        } else if b == 10 {
            out.push(92);
            out.push(110);
        } else if b == 92 {
            out.push(92);
            out.push(92);
        } else if b == 39 {
            out.push(92);
            out.push(39);
        } else if b == 34 {
            out.push(92);
            out.push(34);
        } else if 0x20 <= b && b <= 0x7e {
            out.push(b);
        } else {
            let hi = b / 16;
            let lo = b % 16;
            out.push(92);
            out.push(120);
            out.push(if hi < 10 { 48 + hi } else { 87 + hi });
            out.push(if lo < 10 { 48 + lo } else { 87 + lo });
        }
        proof {
            assert(raw@.take(i + 1).drop_last() =~= raw@.take(i as int));
            assert(raw@.take(i + 1).last() == b);
            assert(out@ =~= before + escape_byte(b));
        }
        i = i + 1;
    }
    proof {
        assert(raw@.take(raw@.len() as int) =~= raw@);
    }
    string_from_ascii(out)
}

/// All data required to populate the S2E templates. The templates are kept
/// as close to the upstream S2E templates as possible.
pub struct S2EConfig {
    pub creation_time: &'static str,
    pub project_dir: std::path::PathBuf,
    pub use_seeds: bool,
    pub project_name: &'static str,
    pub modules: Vec<[String; 1]>,
    pub processes: Vec<String>,
    pub use_cupa: bool,
    pub target_lua_template: &'static str,
    pub custom_lua_string: &'static str,
    pub project_type: &'static str,
    pub image_arch: &'static str,
    pub target_bootstrap_template: &'static str,
    pub target: Target,
    pub dynamically_linked: bool,
    pub sym_args: Vec<u8>,
    pub enable_pov_generation: bool,
    pub enable_tickler: bool,
    pub has_guestfs: bool,
    pub guestfs_paths: Vec<std::path::PathBuf>,
    pub use_test_case_generator: bool,
    pub enable_cfi: bool,
}

pub struct Target {
    pub arch: &'static str,
    pub name: String,
    pub names: Vec<String>,
    pub args: Args,
}

pub struct Args {
    pub symbolic_file_names: Vec<String>,
    pub resolved_args: Vec<String>,
}

impl S2EConfig {
    /// Default template parameters, for tracing the executable with the
    /// given file name (the bytes of an `OsStr`) in the given session
    /// directory; the name is escaped to ASCII. Update this to change the
    /// S2E run time configuration.
    pub fn new(session_dir: std::path::PathBuf, executable_file_name: &[u8]) -> (c: Self)
        ensures
            c.project_dir == session_dir,
            c.modules@.len() == 1,
            c.modules@[0]@[0]@ == ascii_chars(escaped(executable_file_name@)),
            c.processes@.len() == 1,
            c.processes@[0]@ == ascii_chars(escaped(executable_file_name@)),
            c.target.name@ == ascii_chars(escaped(executable_file_name@)),
            c.target.names@.len() == 1,
            c.target.names@[0]@ == ascii_chars(escaped(executable_file_name@)),
            c.target.arch@ == "x86_64"@,
            c.target.args.symbolic_file_names@.len() == 0,
            c.target.args.resolved_args@.len() == 0,
            c.creation_time@ == "CREATION_TIME"@,
            c.project_name@ == "PROJECT_NAME"@,
            c.target_lua_template@ == "s2e-config.linux.lua"@,
            c.custom_lua_string@ == CUSTOM_LUA_STRING@,
            c.project_type@ == "linux"@,
            c.image_arch@ == "x86_64"@,
            c.target_bootstrap_template@ == "bootstrap.linux.sh"@,
            !c.use_seeds,
            c.use_cupa,
            c.dynamically_linked,
            c.sym_args@.len() == 0,
            !c.enable_pov_generation,
            !c.enable_tickler,
            !c.has_guestfs,
            c.guestfs_paths@.len() == 0,
            c.use_test_case_generator,
            !c.enable_cfi,
    {
        let executable_file_name = os_str_to_escaped_ascii(executable_file_name);
        Self {
            creation_time: "CREATION_TIME",
            project_dir: session_dir,
            use_seeds: false,
            project_name: "PROJECT_NAME",
            modules: vec![[executable_file_name.clone()]],
            processes: vec![executable_file_name.clone()],
            use_cupa: true,
            target_lua_template: "s2e-config.linux.lua",
            custom_lua_string: CUSTOM_LUA_STRING,
            project_type: "linux",
            image_arch: "x86_64",
            target_bootstrap_template: "bootstrap.linux.sh",
            target: Target {
                arch: "x86_64",
                name: executable_file_name.clone(),
                names: vec![executable_file_name],
                args: Args { symbolic_file_names: vec![], resolved_args: vec![] },
            },
            dynamically_linked: true,
            sym_args: vec![],
            enable_pov_generation: false,
            enable_tickler: false,
            has_guestfs: false,
            guestfs_paths: Vec::new(),
            use_test_case_generator: true,
            enable_cfi: false,
        }
    }
}

/// Whether `init` may stop before building anything: the guest images
/// were made by the same version of the chosen strategy (the version file
/// holds exactly the new version string) and no rebuild was forced.
pub fn guest_images_up_to_date(force: bool, old_version: Option<&String>, new_version: &String) -> (b: bool)
    ensures
        b == (!force && match old_version {
            Some(v) => v@ == new_version@,
            None => false,
        }),
{
    if force {
        return false;
    }
    match old_version {
        Some(v) => *v == *new_version,
        None => false,
    }
}

} // verus!
