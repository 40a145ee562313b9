//! Preset glyph ramps, ordered dark -> light.

use vstd::prelude::*;

verus! {

/// The names of the preset ramps, in the order they are offered.
pub const PRESETS: [&'static str; 10] = [
    "standard",
    "blocks",
    "simple",
    "binary",
    "shaded",
    "density",
    "portrait",
    "dots",
    "detailed",
    "moon",
];

/// The preset ramp called `name`, if there is one.
pub open spec fn preset(name: Seq<char>) -> Option<Seq<char>> {
    if name == "standard"@ {
        Some(" .:-=+*#%@"@)
    } else if name == "blocks"@ {
        Some(" ░▒▓█"@)
    } else if name == "simple"@ {
        Some(" .*#"@)
    } else if name == "binary"@ {
        Some(" .#"@)
    } else if name == "shaded"@ {
        Some(" ▏▎▍▌▋▊▉█"@)
    } else if name == "density"@ {
        Some(" .,:;i1tfLCG08@"@)
    } else if name == "portrait"@ {
        Some(" .,:;irsXA253hMHGS#9B&@"@)
    } else if name == "dots"@ {
        Some(" ....::::;;;;iiii111222333555999###@@"@)
    } else if name == "detailed"@ {
        // Classic 70-level Paul Bourke ramp: most tonal detail.
        Some(" .'`^\",:;Il!i><~+_-?][}{1)(|\\/tfjrxnuvczXYUJCLQ0OZmwqpdbkhao*#MW&8%B@$"@)
    } else if name == "moon"@ {
        // emoji brightness ramp
        Some("🌑🌒🌓🌔🌕"@)
    } else {
        None
    }
}

/// The ramp that a name stands for: a preset, or the name itself as a custom ramp.
pub open spec fn ramp_for(name: Seq<char>) -> Seq<char> {
    match preset(name) {
        Some(r) => r,
        None => name,
    }
}

/// Whether two strings hold the same characters.
pub fn same_text(a: &str, b: &str) -> (r: bool)
    ensures
        r == (a@ == b@),
{
    let n = a.unicode_len();
    if n != b.unicode_len() {
        return false;
    }
    let mut i: usize = 0;
    while i < n
        invariant
            n == a@.len(),
            n == b@.len(),
            i <= n,
            forall|j: int| 0 <= j < i ==> a@[j] == b@[j],
        decreases n - i,
    {
        if a.get_char(i) != b.get_char(i) {
            return false;
        }
        i = i + 1;
    }
    assert(a@ =~= b@);
    true
}

/// Look up a preset ramp by name, or return `name` itself as a custom ramp.
pub fn resolve(name: &str) -> (r: String)
    ensures
        r@ == ramp_for(name@),
{
    let ramp: &str = if same_text(name, "standard") {
        " .:-=+*#%@"
    } else if same_text(name, "blocks") {
        " ░▒▓█"
    } else if same_text(name, "simple") {
        " .*#"
    } else if same_text(name, "binary") {
        " .#"
    } else if same_text(name, "shaded") {
        " ▏▎▍▌▋▊▉█"
    } else if same_text(name, "density") {
        " .,:;i1tfLCG08@"
    } else if same_text(name, "portrait") {
        " .,:;irsXA253hMHGS#9B&@"
    } else if same_text(name, "dots") {
        " ....::::;;;;iiii111222333555999###@@"
    } else if same_text(name, "detailed") {
        " .'`^\",:;Il!i><~+_-?][}{1)(|\\/tfjrxnuvczXYUJCLQ0OZmwqpdbkhao*#MW&8%B@$"
    } else if same_text(name, "moon") {
        "🌑🌒🌓🌔🌕"
    } else {
        name
    };
    String::from_str(ramp)
}

} // verus!
