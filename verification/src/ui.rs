//! The page of the built-in user interface.

use crate::outside::{debug_text, is_alphanumeric, quoted};
use vstd::prelude::*;
use vstd::string::StringExecFns;

verus! {

/// The page from its document type to the declaration of the token.
pub const PAGE_HEAD: &'static str = r#"
<html lang="en">
<head>
  <meta charset="utf-8">
  <meta name="viewport" content="width=device-width, initial-scale=1">
  <title>DNSMASQ Agent</title>
  <style>
    :root {
      --bg: #f3efe6;
      --panel: rgba(255,255,255,0.78);
      --panel-strong: rgba(255,255,255,0.92);
      --ink: #1f2a2a;
      --muted: #637070;
      --line: rgba(31,42,42,0.12);
      --accent: #0f766e;
      --accent-2: #dd6b20;
      --danger: #b42318;
      --shadow: 0 24px 60px rgba(36, 44, 53, 0.14);
      --radius: 24px;
    }
    * { box-sizing: border-box; }
    body {
      margin: 0;
      min-height: 100vh;
      color: var(--ink);
      font-family: "IBM Plex Sans", "Avenir Next", "Segoe UI", sans-serif;
      background:
        radial-gradient(circle at top left, rgba(15,118,110,0.18), transparent 30%),
        radial-gradient(circle at top right, rgba(221,107,32,0.18), transparent 28%),
        linear-gradient(160deg, #f8f5ee 0%, #efe9dd 48%, #e8efe9 100%);
    }
    .shell {
      max-width: 1220px;
      margin: 0 auto;
      padding: 28px 20px 48px;
    }
    .hero {
      display: grid;
      grid-template-columns: 1.3fr 0.7fr;
      gap: 20px;
      margin-bottom: 20px;
    }
    .card {
      background: var(--panel);
      border: 1px solid var(--line);
      border-radius: var(--radius);
      box-shadow: var(--shadow);
      backdrop-filter: blur(10px);
    }
    .hero-main {
      padding: 28px;
    }
    .hero-main h1 {
      margin: 0 0 10px;
      font-size: clamp(2rem, 5vw, 4rem);
      line-height: 0.95;
      letter-spacing: -0.05em;
    }
    .hero-main p {
      margin: 0;
      max-width: 46rem;
      color: var(--muted);
      font-size: 1rem;
      line-height: 1.6;
    }
    .hero-side {
      padding: 24px;
      display: flex;
      flex-direction: column;
      gap: 14px;
      justify-content: center;
    }
    .hero-side .pill {
      display: inline-flex;
      width: fit-content;
      align-items: center;
      gap: 8px;
      border-radius: 999px;
      background: rgba(15,118,110,0.09);
      color: var(--accent);
      padding: 8px 12px;
      font-size: 0.88rem;
      font-weight: 700;
      letter-spacing: 0.03em;
      text-transform: uppercase;
    }
    .hero-side code {
      font-size: 0.92rem;
      background: rgba(31,42,42,0.06);
      border-radius: 12px;
      padding: 3px 7px;
    }
    .grid {
      display: grid;
      grid-template-columns: repeat(12, 1fr);
      gap: 20px;
    }
    .span-5 { grid-column: span 5; }
    .span-7 { grid-column: span 7; }
    .panel {
      padding: 22px;
    }
    h2 {
      margin: 0 0 14px;
      font-size: 1.15rem;
      letter-spacing: -0.03em;
    }
    .sub {
      margin: -6px 0 18px;
      color: var(--muted);
      font-size: 0.94rem;
    }
    .form-grid {
      display: grid;
      grid-template-columns: 1fr 1fr;
      gap: 14px;
    }
    .field {
      display: flex;
      flex-direction: column;
      gap: 8px;
    }
    .field.full { grid-column: 1 / -1; }
    label {
      font-size: 0.9rem;
      font-weight: 700;
    }
    input[type="text"],
    input[type="number"],
    select {
      width: 100%;
      border: 1px solid rgba(31,42,42,0.12);
      background: var(--panel-strong);
      color: var(--ink);
      border-radius: 16px;
      padding: 13px 14px;
      outline: none;
      font: inherit;
      transition: border-color 120ms ease, transform 120ms ease;
    }
    input:focus,
    select:focus {
      border-color: rgba(15,118,110,0.55);
      transform: translateY(-1px);
    }
    .actions {
      display: flex;
      flex-wrap: wrap;
      gap: 10px;
      margin-top: 18px;
    }
    button {
      border: 0;
      border-radius: 999px;
      padding: 12px 16px;
      font: inherit;
      font-weight: 700;
      cursor: pointer;
      transition: transform 120ms ease, opacity 120ms ease, box-shadow 120ms ease;
    }
    button:hover {
      transform: translateY(-1px);
    }
    button:disabled {
      opacity: 0.55;
      cursor: wait;
      transform: none;
    }
    .primary {
      background: linear-gradient(135deg, #0f766e, #115e59);
      color: white;
      box-shadow: 0 14px 28px rgba(15,118,110,0.22);
    }
    .secondary {
      background: linear-gradient(135deg, #dd6b20, #c05621);
      color: white;
    }
    .ghost {
      background: rgba(31,42,42,0.06);
      color: var(--ink);
    }
    .danger {
      background: rgba(180,35,24,0.1);
      color: var(--danger);
    }
    .toolbar {
      display: flex;
      flex-wrap: wrap;
      gap: 10px;
      margin-bottom: 18px;
    }
    .status {
      min-height: 52px;
      border-radius: 18px;
      border: 1px solid var(--line);
      background: rgba(255,255,255,0.52);
      padding: 14px 16px;
      font-size: 0.94rem;
      color: var(--muted);
      white-space: pre-wrap;
      display: flex;
      align-items: center;
      justify-content: space-between;
      gap: 12px;
      opacity: 1;
      transition: opacity 240ms ease, transform 240ms ease;
    }
    .status.good {
      color: #0b5f57;
      background: rgba(15,118,110,0.08);
      border-color: rgba(15,118,110,0.18);
    }
    .status.bad {
      color: var(--danger);
      background: rgba(180,35,24,0.08);
      border-color: rgba(180,35,24,0.18);
    }
    .status.hidden {
      opacity: 0;
      transform: translateY(-4px);
      pointer-events: none;
    }
    .status button {
      padding: 7px 10px;
      background: rgba(31,42,42,0.06);
      color: var(--ink);
      font-size: 0.82rem;
      box-shadow: none;
      flex-shrink: 0;
    }
    .status-message {
      min-width: 0;
    }
    .table-wrap {
      overflow: auto;
      border: 1px solid var(--line);
      border-radius: 18px;
      background: rgba(255,255,255,0.62);
    }
    table {
      width: 100%;
      border-collapse: collapse;
      min-width: 760px;
    }
    th, td {
      padding: 14px 16px;
      text-align: left;
      vertical-align: top;
      border-bottom: 1px solid rgba(31,42,42,0.08);
    }
    th {
      font-size: 0.82rem;
      text-transform: uppercase;
      letter-spacing: 0.05em;
      color: var(--muted);
      background: rgba(31,42,42,0.03);
    }
    td code {
      font-size: 0.9rem;
      background: rgba(31,42,42,0.06);
      border-radius: 10px;
      padding: 3px 6px;
    }
    .row-actions {
      display: flex;
      flex-wrap: wrap;
      gap: 8px;
    }
    .empty {
      padding: 24px;
      color: var(--muted);
    }
    @media (max-width: 980px) {
      .hero, .grid {
        grid-template-columns: 1fr;
      }
      .span-5, .span-7 {
        grid-column: auto;
      }
      .form-grid {
        grid-template-columns: 1fr;
      }
    }
  </style>
</head>
<body>
  <div class="shell">
    <section class="hero">
      <div class="card hero-main">
        <h1>DNSMASQ Agent</h1>
        <p>Operate the SQLite-backed host registry, inspect active entries, and trigger exports without dropping into curl. All write actions reuse the same API surface as your automation.</p>
      </div>
      <aside class="card hero-side">
        <div class="pill">Live Control Surface</div>
        <div>UI path: <code>/dnsmasq/ui/index.html</code></div>
        <div>CSRF token is embedded into this page and validated on mutating AJAX requests.</div>
        <div>Current time: <code id="live-time">--:--:--</code></div>
        <div>Auto refresh: <code>every 5 seconds</code></div>
        <div class="actions" style="margin-top:4px;">
          <button class="ghost" type="button" id="live-refresh">Refresh</button>
        </div>
      </aside>
    </section>

    <section class="grid">
      <div class="card panel span-5">
        <h2>Add Or Replace Host</h2>
        <p class="sub">Use the same semantics as <code>POST /dnsmasq/add_host</code>. Re-posting the same host refreshes TTL and registration time.</p>
        <form id="add-form">
          <div class="form-grid">
            <div class="field">
              <label for="ip">IP Address</label>
              <input id="ip" name="ip" type="text" placeholder="10.2.2.2" required>
            </div>
            <div class="field">
              <label for="host">Hostname</label>
              <input id="host" name="host" type="text" placeholder="service.example.test" required>
            </div>
            <div class="field">
              <label for="ttl">TTL Seconds</label>
              <input id="ttl" name="ttl" type="number" min="0" placeholder="0 means forever">
            </div>
            <div class="field">
              <label for="replace-mode">Replace Mode</label>
              <select id="replace-mode" name="replace_mode">
                <option value="both" selected>both: only this host and only this IP</option>
                <option value="host">host: replace other hosts under this IP</option>
                <option value="ip">ip: replace other IPs under this host</option>
                <option value="none">none: add alongside existing entries</option>
              </select>
            </div>
          </div>
          <div class="actions">
            <button class="primary" type="submit" id="add-submit">Submit Change</button>
          </div>
        </form>
      </div>

      <div class="card panel span-7">
        <h2>Operations</h2>
        <p class="sub">Background export respects generation and diff checks. Force export bypasses both and always syncs the current rendered state.</p>
        <div class="toolbar">
          <button class="secondary" type="button" id="export-now">Force Export Now</button>
        </div>
        <div id="status" class="status hidden">
          <div id="status-message" class="status-message">Ready.</div>
          <button type="button" id="status-close">Dismiss</button>
        </div>
      </div>
    </section>

    <section class="card panel" style="margin-top:20px;">
      <h2>Active Hosts</h2>
      <p class="sub">Entries are grouped by IP and rendered from <code>GET /dnsmasq/all</code>. Delete operations below call the existing API endpoints directly.</p>
      <div class="table-wrap">
        <table>
          <thead>
            <tr>
              <th>IP</th>
              <th>Host</th>
              <th>TTL</th>
              <th>Registered</th>
              <th>Actions</th>
            </tr>
          </thead>
          <tbody id="hosts-body">
            <tr><td colspan="5" class="empty">Loading active hosts...</td></tr>
          </tbody>
        </table>
      </div>
    </section>
  </div>

  <script>
    "#;

/// The page from behind the declaration of the token to its closing tag.
pub const PAGE_BODY: &'static str = r#"
    const statusEl = document.getElementById('status');
    const statusMessageEl = document.getElementById('status-message');
    const statusCloseEl = document.getElementById('status-close');
    const hostsBody = document.getElementById('hosts-body');
    const addForm = document.getElementById('add-form');
    const addSubmit = document.getElementById('add-submit');
    const liveTimeEl = document.getElementById('live-time');
    let refreshTimer = null;
    let statusTimer = null;

    function hideStatus() {
      statusEl.classList.add('hidden');
    }

    function setStatus(message, tone = '', autoHide = false) {
      if (statusTimer) {
        clearTimeout(statusTimer);
        statusTimer = null;
      }
      statusEl.className = 'status' + (tone ? ' ' + tone : '');
      statusMessageEl.textContent = message;
      statusEl.classList.remove('hidden');
      if (autoHide) {
        statusTimer = setTimeout(() => {
          hideStatus();
          statusTimer = null;
        }, 3000);
      }
    }

    function updateClock() {
      liveTimeEl.textContent = new Date().toLocaleString();
    }

    function humanTimestamp() {
      return new Date().toLocaleString();
    }

    async function api(path, options = {}) {
      const headers = new Headers(options.headers || {});
      if (options.csrf) {
        headers.set('X-CSRF-Token', csrfToken);
      }
      const response = await fetch(path, {
        credentials: 'same-origin',
        ...options,
        headers,
      });
      const text = await response.text();
      let data = null;
      try {
        data = text ? JSON.parse(text) : null;
      } catch {
        data = text;
      }
      if (!response.ok) {
        const message = data && data.message ? data.message : (typeof data === 'string' ? data : response.statusText);
        throw new Error(message || 'Request failed');
      }
      return data;
    }

    function renderHosts(payload) {
      const rows = [];
      const ips = Object.keys(payload || {});
      if (ips.length === 0) {
        hostsBody.innerHTML = '<tr><td colspan="5" class="empty">No active hosts.</td></tr>';
        return;
      }
      for (const ip of ips) {
        const entries = payload[ip] || [];
        entries.forEach((entry, index) => {
          rows.push(`
            <tr>
              <td>${index === 0 ? `<code>${ip}</code>` : ''}</td>
              <td><code>${entry.name}</code></td>
              <td>${entry.ttl_seconds}</td>
              <td>${entry.registered_time}</td>
              <td>
                <div class="row-actions">
                  <button class="danger" type="button" data-action="delete-host" data-ip="${ip}" data-host="${entry.name}">Delete Host</button>
                  ${index === 0 ? `<button class="ghost" type="button" data-action="delete-ip" data-ip="${ip}">Delete IP</button>` : ''}
                </div>
              </td>
            </tr>
          `);
        });
      }
      hostsBody.innerHTML = rows.join('');
    }

    async function refreshHosts(message = 'Refreshing host list...') {
      setStatus(message);
      const data = await api('/dnsmasq/all');
      renderHosts(data);
      setStatus(`Host list refreshed at ${humanTimestamp()}.`, 'good', true);
    }

    addForm.addEventListener('submit', async (event) => {
      event.preventDefault();
      addSubmit.disabled = true;
      try {
        const payload = {
          ip: document.getElementById('ip').value.trim(),
          host: document.getElementById('host').value.trim(),
          replace_mode: document.getElementById('replace-mode').value
        };
        const ttlRaw = document.getElementById('ttl').value.trim();
        if (ttlRaw !== '') {
          payload.ttl = Number(ttlRaw);
        }
        const data = await api('/dnsmasq/add_host', {
          method: 'POST',
          csrf: true,
          headers: { 'Content-Type': 'application/json' },
          body: JSON.stringify(payload)
        });
        setStatus(`Updated ${data.ip} with hosts: ${data.hosts.join(', ') || '(none)'} at ${humanTimestamp()}.`, 'good', true);
        await refreshHosts();
      } catch (error) {
        setStatus(error.message, 'bad');
      } finally {
        addSubmit.disabled = false;
      }
    });

    document.getElementById('live-refresh').addEventListener('click', () => refreshHosts('Force refreshing host list...').catch(error => setStatus(error.message, 'bad')));

    document.getElementById('export-now').addEventListener('click', async () => {
      try {
        setStatus('Forcing immediate export...');
        await api('/dnsmasq/export_now', { method: 'POST', csrf: true });
        setStatus(`Forced export completed at ${humanTimestamp()}.`, 'good', true);
      } catch (error) {
        setStatus(error.message, 'bad');
      }
    });

    statusCloseEl.addEventListener('click', hideStatus);

    hostsBody.addEventListener('click', async (event) => {
      const button = event.target.closest('button[data-action]');
      if (!button) return;
      const action = button.dataset.action;
      const ip = button.dataset.ip;
      const host = button.dataset.host;
      try {
        if (action === 'delete-host') {
          setStatus(`Deleting host ${host} from ${ip}...`);
          const data = await api(`/dnsmasq/${encodeURIComponent(ip)}/${encodeURIComponent(host)}`, {
            method: 'DELETE',
            csrf: true
          });
          setStatus(`Removed ${data.removed_host_count} host entry from ${ip} at ${humanTimestamp()}.`, 'good', true);
        } else if (action === 'delete-ip') {
          setStatus(`Deleting all hosts for ${ip}...`);
          const data = await api(`/dnsmasq/${encodeURIComponent(ip)}`, {
            method: 'DELETE',
            csrf: true
          });
          setStatus(`Removed ${data.removed_host_count} host entries for ${ip} at ${humanTimestamp()}.`, 'good', true);
        }
        await refreshHosts();
      } catch (error) {
        setStatus(error.message, 'bad');
      }
    });

    updateClock();
    setInterval(updateClock, 1000);

    refreshHosts().catch(error => setStatus(error.message, 'bad'));
    refreshTimer = setInterval(() => {
      refreshHosts('Auto refreshing host list...').catch(error => setStatus(error.message, 'bad'));
    }, 5000);
  </script>
</body>
"#;

/// The page up to the token.
pub open spec fn page_start() -> Seq<char> {
    "<!doctype html>"@ + PAGE_HEAD@ + "const csrfToken = "@
}

/// The page from behind the token on.
pub open spec fn page_end() -> Seq<char> {
    ";"@ + PAGE_BODY@ + "</html>"@
}

/// The page with a token in its script, where the token is written as `{:?}` writes it.
pub open spec fn ui_page(token: Seq<char>) -> Seq<char> {
    page_start() + debug_text(token) + page_end()
}

/// The page of the user interface, with the token that its requests send back.
pub fn render_ui_html(csrf_token: &str) -> (res: String)
    ensures
        res@ == ui_page(csrf_token@),
        (forall|i: int| 0 <= i < csrf_token@.len() ==> is_alphanumeric(#[trigger] csrf_token@[i]))
            ==> res@ == page_start() + (seq!['"'] + csrf_token@ + seq!['"']) + page_end(),
{
    let token = quoted(csrf_token);
    let mut res = String::new();
    res.append("<!doctype html>");
    res.append(PAGE_HEAD);
    res.append("const csrfToken = ");
    res.append(&token);
    res.append(";");
    res.append(PAGE_BODY);
    res.append("</html>");
    assert(res@ =~= page_start() + token@ + page_end());
    res
}

/// Whatever the token, the page is the same text up to it and from behind it on: it starts
/// with its document type, declares the token, and ends with its closing tag.
pub proof fn law_page_holds_the_token(token: Seq<char>)
    ensures
        ui_page(token) == page_start() + debug_text(token) + page_end(),
        "<!doctype html>"@.is_prefix_of(page_start()),
        "const csrfToken = "@.is_suffix_of(page_start()),
        ";"@.is_prefix_of(page_end()),
        "</html>"@.is_suffix_of(page_end()),
        "<!doctype html>"@.is_prefix_of(ui_page(token)),
        "</html>"@.is_suffix_of(ui_page(token)),
{
    let start = page_start();
    let end = page_end();
    let page = ui_page(token);
    let first = "<!doctype html>"@;
    let declared = "const csrfToken = "@;
    let closed = "</html>"@;
    assert(start.subrange(0, first.len() as int) =~= first);
    assert(start.subrange(start.len() - declared.len(), start.len() as int) =~= declared);
    assert(end.subrange(0, ";"@.len() as int) =~= ";"@);
    assert(end.subrange(end.len() - closed.len(), end.len() as int) =~= closed);
    assert(page.subrange(0, first.len() as int) =~= first);
    assert(page.subrange(page.len() - closed.len(), page.len() as int) =~= closed);
}

} // verus!
