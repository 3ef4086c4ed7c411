//! Which symbols are listed: those of a language server or those of the syntax.

use vstd::prelude::*;

verus! {

/// Where symbols come from.
#[derive(Clone, Copy, Debug, PartialEq, Eq, Structural)]
pub enum SymbolSource {
    LanguageServer,
    Syntax,
}

/// Where the symbols of a document come from: a language server that knows them, else its syntax
/// if it has one or will have one.
pub fn lsp_or_syntax_symbol_picker(server: bool, syntax: bool, syntax_pending: bool) -> (source: Result<
    SymbolSource,
    &'static str,
>)
    ensures
        match source {
            Ok(SymbolSource::LanguageServer) => server,
            Ok(SymbolSource::Syntax) => !server && (syntax || syntax_pending),
            Err(m) => !server && !syntax && !syntax_pending && m@
                == "No language server supporting document symbols or syntax info available"@,
        },
{
    if server {
        Ok(SymbolSource::LanguageServer)
    } else if syntax || syntax_pending {
        Ok(SymbolSource::Syntax)
    } else {
        Err("No language server supporting document symbols or syntax info available")
    }
}

/// Where the symbols of the workspace come from.
pub fn lsp_or_syntax_workspace_symbol_picker(server: bool) -> (source: SymbolSource)
    ensures
        source == if server {
            SymbolSource::LanguageServer
        } else {
            SymbolSource::Syntax
        },
{
    if server {
        SymbolSource::LanguageServer
    } else {
        SymbolSource::Syntax
    }
}

} // verus!
