//! The page that shows a topology in three dimensions, with the graph inlined so
//! that it opens from a file.
use vstd::prelude::*;
use vstd::string::*;

verus! {

/// The page up to the graph.
pub const VIEWER_HEAD: &'static str = r#"<!DOCTYPE html>
<html>
<head>
<meta charset="utf-8">
<title>astral — code topology</title>
<style>
  body { margin: 0; background: #04060f; overflow: hidden; }
  .panel {
    position: fixed; z-index: 1; color: #cbd5e1;
    font: 12px/1.7 ui-monospace, monospace;
    background: rgba(4, 6, 15, 0.85); border: 1px solid #1e293b;
    padding: 10px 14px; border-radius: 8px;
  }
  #hud { top: 12px; left: 12px; }
  #hud h1 { margin: 0 0 2px; font-size: 14px; letter-spacing: 4px; color: #e2e8f0; }
  #hud .stats { color: #64748b; }
  #hud input[type=text] {
    margin-top: 8px; width: 200px; padding: 4px 8px;
    color: #e2e8f0; background: #0b1120; border: 1px solid #1e293b;
    border-radius: 4px; font: inherit; outline: none;
  }
  #hud .risk { margin-top: 10px; }
  #hud .risk label { display: block; color: #94a3b8; }
  #hud input[type=range] { width: 200px; accent-color: #ff0055; }
  #hud .risk b { color: #ff9100; }
  #legend { bottom: 12px; left: 12px; user-select: none; }
  #legend div { cursor: pointer; }
  #legend div.off { opacity: 0.3; }
  .dot { display: inline-block; width: 10px; height: 10px; border-radius: 50%; margin-right: 6px; }
</style>
<script type="importmap">
  {
    "imports": {
      "three": "https://esm.sh/three",
      "three/": "https://esm.sh/three/"
    }
  }
</script>
</head>
<body>
<div id="hud" class="panel">
  <h1>ASTRAL</h1>
  <div class="stats" id="stats"></div>
  <input id="search" type="text" placeholder="search nodes…" spellcheck="false">
  <div class="risk">
    <label>minimum risk level: <b id="riskValue">0</b> <span id="riskCount"></span></label>
    <input id="risk" type="range" min="0" max="10" step="1" value="0">
  </div>
</div>
<div id="legend" class="panel"></div>
<div id="graph"></div>
<script type="module">
// `?external=three` makes 3d-force-graph resolve `three` through the import
// map above — one shared three.js instance, so meshes built here render in
// the library's scene without version clashes.
import ForceGraph3D from 'https://esm.sh/3d-force-graph?external=three';
import * as THREE from 'three';

const data = "#;

/// The page behind the graph.
pub const VIEWER_TAIL: &'static str = r#";

const GROUPS = [
  ['function',       '#4e7cff', 'function'],
  ['constructor',    '#ffd166', 'constructor'],
  ['modifier',       '#8a2be2', 'modifier'],
  ['receive',        '#ff8c42', 'fallback / receive'],
  ['state_variable', '#00ffcc', 'state variable'],
  ['external_call',  '#94a3b8', 'external call'],
];
const active = new Set(GROUPS.map(g => g[0]));
let term = '';
let minRisk = 0;

const PULSE_THRESHOLD = 7;   // risk_score >= 7 → pulsing threat node
const DIM_COLOR = 'rgba(148, 163, 184, 0.08)';

const visible = n =>
  active.has(n.group) && (!term || n.id.toLowerCase().includes(term));
const hot = n => n.risk_score >= minRisk;

// Pulsing meshes for high-risk nodes, animated below.
const pulsing = [];

const Graph = ForceGraph3D()(document.getElementById('graph'))
  .graphData(data)
  .nodeVal(n => n.size)
  .nodeColor(n => hot(n) ? n.color : DIM_COLOR)
  .nodeLabel(n => `${n.id} [${n.group}] · risk ${n.risk_score}`)
  .nodeOpacity(0.9)
  .nodeThreeObject(n => {
    if (n.risk_score < PULSE_THRESHOLD) return false; // default sphere
    const radius = 4 * Math.cbrt(n.size);             // match default sizing
    const mesh = new THREE.Mesh(
      new THREE.SphereGeometry(radius, 24, 24),
      new THREE.MeshLambertMaterial({
        color: '#ff0055', emissive: '#ff0055', emissiveIntensity: 0.7,
        transparent: true, opacity: 0.95,
      }),
    );
    pulsing.push({ node: n, mesh, phase: Math.random() * Math.PI * 2 });
    return mesh;
  })
  .backgroundColor('#04060f')
  .linkColor(l => hot(l.source) && hot(l.target) ? '#334155' : DIM_COLOR)
  .linkOpacity(0.35)
  .linkDirectionalParticles(1)
  .linkDirectionalParticleWidth(1.2)
  .linkDirectionalParticleColor(() => '#7dd3fc')
  .onNodeClick(node => {
    // Fly the three.js camera to the clicked node.
    const dist = 80;
    const ratio = 1 + dist / Math.hypot(node.x, node.y, node.z);
    Graph.cameraPosition(
      { x: node.x * ratio, y: node.y * ratio, z: node.z * ratio },
      node, 1000,
    );
  });

// Threat pulse: high-risk nodes breathe in size and sweep neon-red →
// acid-orange. Dimmed-out ones fade towards transparency smoothly.
const RED = new THREE.Color('#ff0055');
const ORANGE = new THREE.Color('#ff9100');
(function animate() {
  const t = performance.now() / 1000;
  for (const { node, mesh, phase } of pulsing) {
    const beat = 0.5 + 0.5 * Math.sin(t * 4 + phase);
    mesh.scale.setScalar(1 + 0.3 * beat);
    mesh.material.color.lerpColors(RED, ORANGE, beat);
    mesh.material.emissive.lerpColors(RED, ORANGE, beat);
    const target = hot(node) ? 0.95 : 0.1;
    mesh.material.opacity += (target - mesh.material.opacity) * 0.15;
  }
  requestAnimationFrame(animate);
})();

function refresh() {
  Graph
    .nodeVisibility(visible)
    .linkVisibility(l => visible(l.source) && visible(l.target))
    .nodeColor(n => hot(n) ? n.color : DIM_COLOR)
    .linkColor(l => hot(l.source) && hot(l.target) ? '#334155' : DIM_COLOR);
  const hotCount = data.nodes.filter(n => visible(n) && hot(n)).length;
  document.getElementById('riskCount').textContent =
    minRisk > 0 ? `(${hotCount} nodes in focus)` : '';
}
refresh();

document.getElementById('stats').textContent =
  `${data.nodes.length} nodes · ${data.links.length} links`;

document.getElementById('search').addEventListener('input', e => {
  term = e.target.value.trim().toLowerCase();
  refresh();
});

document.getElementById('risk').addEventListener('input', e => {
  minRisk = Number(e.target.value);
  document.getElementById('riskValue').textContent = minRisk;
  refresh();
});

const legend = document.getElementById('legend');
for (const [group, color, label] of GROUPS) {
  const row = document.createElement('div');
  row.innerHTML = `<span class="dot" style="background:${color}"></span>${label}`;
  row.title = 'click to toggle';
  row.onclick = () => {
    active.has(group) ? active.delete(group) : active.add(group);
    row.classList.toggle('off');
    refresh();
  };
  legend.appendChild(row);
}
const note = document.createElement('div');
note.style.cssText = 'margin-top:6px;color:#64748b;cursor:default';
note.innerHTML = '<span class="dot" style="background:#ff0055"></span>low-level call inside';
legend.appendChild(note);
</script>
</body>
</html>
"#;

/// The page for a graph, given in JSON.
pub fn viewer_html(graph_json: &str) -> (html: String)
    ensures
        html@ == VIEWER_HEAD@ + graph_json@ + VIEWER_TAIL@,
{
    let mut html = VIEWER_HEAD.to_owned();
    html.append(graph_json);
    html.append(VIEWER_TAIL);
    html
}

} // verus!
