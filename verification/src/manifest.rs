//! The manifest: a text report of the opcodes and names of a registry.

use crate::instruction::InstructionInfo;
use crate::naming::{lower_camel, to_lower_camel_case, to_upper_camel_case, upper_camel};
use crate::registry::Registry;
use crate::text::{hex_byte, push_hex_byte, push_signed_decimal, signed_decimal};
use vstd::prelude::*;
use vstd::string::StringExecFns;

verus! {

/// The casing in which the manifest shows the names.
#[derive(Debug, Clone, Copy, PartialEq, Eq)]
pub enum ManifestFunctionNameFormat {
    /// The name as it was registered.
    Original,
    /// Every word capitalised, no underscores.
    UpperCamelCase,
    /// The first word in lowercase, later words capitalised, no underscores.
    LowerCamelCase,
}

/// Which of opcode and name comes first in a line of the manifest.
#[derive(Debug, Clone, Copy, PartialEq, Eq)]
pub enum ManifestOrdering {
    /// `0x01 => name`
    CodeFirst,
    /// `name => 0x01`
    NameFirst,
}

/// The name of an ordering, as the manifest prints it.
pub open spec fn ordering_name(ordering: ManifestOrdering) -> Seq<char> {
    match ordering {
        ManifestOrdering::CodeFirst => "CodeFirst"@,
        ManifestOrdering::NameFirst => "NameFirst"@,
    }
}

/// A name in the given casing.
pub open spec fn styled_name(name: Seq<char>, format: ManifestFunctionNameFormat) -> Seq<char> {
    match format {
        ManifestFunctionNameFormat::Original => name,
        ManifestFunctionNameFormat::UpperCamelCase => upper_camel(name),
        ManifestFunctionNameFormat::LowerCamelCase => lower_camel(name),
    }
}

/// The line of the manifest for one descriptor, with its line feed.
pub open spec fn manifest_line(
    code: u8,
    name: Seq<char>,
    format: ManifestFunctionNameFormat,
    ordering: ManifestOrdering,
) -> Seq<char> {
    match ordering {
        ManifestOrdering::CodeFirst => hex_byte(code) + " => "@ + styled_name(name, format) + "\n"@,
        ManifestOrdering::NameFirst => styled_name(name, format) + " => "@ + hex_byte(code) + "\n"@,
    }
}

/// The lines of the manifest for `entries`, in their order.
pub open spec fn manifest_lines<F>(
    entries: Seq<InstructionInfo<F>>,
    format: ManifestFunctionNameFormat,
    ordering: ManifestOrdering,
) -> Seq<char>
    decreases entries.len(),
{
    if entries.len() == 0 {
        Seq::empty()
    } else {
        manifest_lines(entries.drop_last(), format, ordering) + manifest_line(
            entries.last().code,
            entries.last().name@,
            format,
            ordering,
        )
    }
}

/// The whole manifest: four header lines, then one line for each descriptor.
pub open spec fn manifest_text<F>(
    entries: Seq<InstructionInfo<F>>,
    version: int,
    name: Seq<char>,
    format: ManifestFunctionNameFormat,
    ordering: ManifestOrdering,
) -> Seq<char> {
    "Version: "@ + signed_decimal(version) + "\n"@ + "Name: "@ + name + "\n"@ + "Ordering: "@
        + ordering_name(ordering) + "\n"@ + "Instructions:\n"@ + manifest_lines(
        entries,
        format,
        ordering,
    )
}

/// The manifest is a function of the opcodes and names alone: registries
/// that agree on them, in order, have the same manifest, letter for letter.
pub proof fn lemma_manifest_determined<F, G>(
    first: Seq<InstructionInfo<F>>,
    second: Seq<InstructionInfo<G>>,
    version: int,
    name: Seq<char>,
    format: ManifestFunctionNameFormat,
    ordering: ManifestOrdering,
)
    requires
        first.len() == second.len(),
        forall|i: int|
            0 <= i < first.len() ==> (#[trigger] first[i]).code == second[i].code && first[i].name@
                == second[i].name@,
    ensures
        manifest_text(first, version, name, format, ordering) == manifest_text(
            second,
            version,
            name,
            format,
            ordering,
        ),
{
    lemma_lines_determined(first, second, format, ordering);
}

/// The lines of the manifest are a function of the opcodes and names alone.
pub proof fn lemma_lines_determined<F, G>(
    first: Seq<InstructionInfo<F>>,
    second: Seq<InstructionInfo<G>>,
    format: ManifestFunctionNameFormat,
    ordering: ManifestOrdering,
)
    requires
        first.len() == second.len(),
        forall|i: int|
            0 <= i < first.len() ==> (#[trigger] first[i]).code == second[i].code && first[i].name@
                == second[i].name@,
    ensures
        manifest_lines(first, format, ordering) == manifest_lines(second, format, ordering),
    decreases first.len(),
{
    if first.len() > 0 {
        lemma_lines_determined(first.drop_last(), second.drop_last(), format, ordering);
        assert(first.last() == first[first.len() - 1]);
    }
}

/// Appends the line for one descriptor to `text`.
pub fn push_manifest_line(
    text: &mut String,
    code: u8,
    name: &str,
    format: ManifestFunctionNameFormat,
    ordering: ManifestOrdering,
)
    ensures
        final(text)@ == old(text)@ + manifest_line(code, name@, format, ordering),
{
    let styled = match format {
        ManifestFunctionNameFormat::Original => String::from_str(name),
        ManifestFunctionNameFormat::UpperCamelCase => to_upper_camel_case(name),
        ManifestFunctionNameFormat::LowerCamelCase => to_lower_camel_case(name),
    };
    assert(styled@ == styled_name(name@, format));
    match ordering {
        ManifestOrdering::CodeFirst => {
            push_hex_byte(text, code);
            text.append(" => ");
            text.append(styled.as_str());
        },
        ManifestOrdering::NameFirst => {
            text.append(styled.as_str());
            text.append(" => ");
            push_hex_byte(text, code);
        },
    }
    text.append("\n");
    assert(text@ =~= old(text)@ + manifest_line(code, name@, format, ordering));
}

/// The manifest of `registry`: its version, its name, the ordering, and one
/// line for each descriptor, in registration order.
pub fn generate_manifest<F>(
    registry: &Registry<F>,
    version: i32,
    name: String,
    format: ManifestFunctionNameFormat,
    ordering: ManifestOrdering,
) -> (manifest: String)
    ensures
        manifest@ == manifest_text(registry@, version as int, name@, format, ordering),
{
    let mut manifest = String::new();
    manifest.append("Version: ");
    push_signed_decimal(&mut manifest, version as i64);
    manifest.append("\n");
    manifest.append("Name: ");
    manifest.append(name.as_str());
    manifest.append("\n");
    manifest.append("Ordering: ");
    match ordering {
        ManifestOrdering::CodeFirst => manifest.append("CodeFirst"),
        ManifestOrdering::NameFirst => manifest.append("NameFirst"),
    }
    manifest.append("\n");
    manifest.append("Instructions:\n");
    let ghost header = manifest@;
    assert(header =~= "Version: "@ + signed_decimal(version as int) + "\n"@ + "Name: "@ + name@
        + "\n"@ + "Ordering: "@ + ordering_name(ordering) + "\n"@ + "Instructions:\n"@);
    let listed = registry.list();
    let mut i: usize = 0;
    assert(registry@.take(0) =~= Seq::<InstructionInfo<F>>::empty());
    while i < listed.len()
        invariant
            i <= listed@.len(),
            listed@.len() == registry@.len(),
            forall|k: int| 0 <= k < registry@.len() ==> *(#[trigger] listed@[k]) == registry@[k],
            manifest@ == header + manifest_lines(registry@.take(i as int), format, ordering),
        decreases listed@.len() - i,
    {
        let info = listed[i];
        let ghost before = manifest@;
        push_manifest_line(&mut manifest, info.code, info.name, format, ordering);
        proof {
            let next = registry@.take(i as int + 1);
            assert(next.drop_last() =~= registry@.take(i as int));
            assert(next.last() == registry@[i as int]);
            assert(manifest@ =~= header + manifest_lines(next, format, ordering));
        }
        i = i + 1;
    }
    assert(registry@.take(i as int) =~= registry@);
    manifest
}

} // verus!
