# platynui_spy

A UI-tree spy: it filters UI automation trees (by name, role, attributes, regular
expressions, XPath-like paths and depth) and renders them as indented text trees.

- `src/` is the library, written in Verus. Every function carries a contract over a
  mathematical model of its data (`NodeView`, `SpyNodeView`, `JsonView`, sequences of
  characters), and the laws of filtering are proved there (`law_*` proof functions).
  - `text`, `keyed`, `model`: strings, sorted key/value entries, JSON values and UI nodes.
  - `filter`, `xpath`, `attributes`, `output`, `capture`, `run`: the capture pipeline.
  - `args`, `config`, `backend`, `py_config`: command-line and Python-side configuration.
  - `win32`: the decisions of a Windows UI Automation capture (which element to start
    from, selector matching, how an element becomes a node).
  - `spy_cli`, `pattern`: the snapshot tool with regular-expression name patterns.
- `app/` holds what the verifier does not see: the command lines (`clap`), file and
  standard-input reading, JSON (de)serialisation (`serde_json`), the Python module
  (`pyo3`) and the Windows UI Automation calls (`uiautomation`, Windows only).
- `tests/` exercises the library on concrete trees.
